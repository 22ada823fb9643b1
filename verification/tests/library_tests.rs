use std::path::Path;

use obsidian_graph::graph::Graph;
use obsidian_graph::link::parse_links;
use obsidian_graph::path::{entry_kind, file_stem, has_markdown_extension, EntryKind, NotePath};
use obsidian_graph::spawn::Spawn;
use obsidian_graph::text::{text_before, trim, white_space};
use obsidian_graph::vault::{FileEntry, Vault};
use obsidian_graph::view::{node_style, shown_links, NodeStyle};

fn note_path(rel: &str) -> NotePath {
    NotePath {
        parts: rel
            .split('/')
            .filter(|p| !p.is_empty())
            .map(|p| p.to_string())
            .collect(),
    }
}

fn vault_of(entries: &[(&str, Option<i128>)]) -> Vault {
    let listing = entries
        .iter()
        .map(|(rel, created)| FileEntry {
            path: note_path(rel),
            created: *created,
        })
        .collect();
    Vault::scan("/v".to_string(), listing)
}

fn graph_of(vault: &Vault, texts: &[(&str, &str)]) -> Graph {
    let contents: Vec<String> = vault
        .files()
        .iter()
        .map(|p| {
            let rel = p.display();
            texts
                .iter()
                .find(|(r, _)| *r == rel)
                .map(|(_, t)| t.to_string())
                .unwrap_or_default()
        })
        .collect();
    vault.build_graph(&contents)
}

fn index_of(graph: &Graph, name: &str) -> usize {
    graph.nodes.iter().position(|n| n.name == name).unwrap()
}

fn targets(graph: &Graph, name: &str) -> Vec<String> {
    graph.nodes[index_of(graph, name)]
        .edges
        .iter()
        .map(|e| graph.nodes[e.target].name.clone())
        .collect()
}

// ---------------------------------------------------------------------------
// text
// ---------------------------------------------------------------------------

#[test]
fn white_space_matches_std_for_every_char() {
    for u in 0u32..=0x10FFFF {
        if let Some(c) = char::from_u32(u) {
            assert_eq!(white_space(c), c.is_whitespace(), "code point {u:#x}");
        }
    }
}

#[test]
fn trim_matches_std() {
    for s in ["", "   ", "  Note  ", "\tA b\n", "\u{3000}x\u{2028}", "x", " \u{a0}y z\u{85}"] {
        assert_eq!(trim(s), s.trim());
    }
}

#[test]
fn text_before_matches_std_order() {
    let words = ["", "a", "ab", "b", "B", "é", "a/b", "a.b", "Z", "zz"];
    for a in words {
        for b in words {
            assert_eq!(text_before(a, b), a < b, "{a:?} {b:?}");
        }
    }
}

// ---------------------------------------------------------------------------
// paths
// ---------------------------------------------------------------------------

#[test]
fn file_stem_matches_std() {
    for name in ["Note.md", "a.b.md", ".hidden", ".hidden.md", "noext", "x.", "..", ".", "", "a..b"] {
        let expected = Path::new(name)
            .file_stem()
            .and_then(|s| s.to_str())
            .unwrap_or_default()
            .to_string();
        assert_eq!(file_stem(name), expected, "{name:?}");
    }
}

#[test]
fn markdown_extension_matches_std() {
    for name in ["Note.md", "a.b.md", ".md", "md", "x.MD", "x.mdx", "a.md.txt", "x."] {
        let expected = Path::new(name).extension().is_some_and(|e| e == "md");
        assert_eq!(has_markdown_extension(name), expected, "{name:?}");
    }
}

#[test]
fn entry_kinds() {
    assert_eq!(entry_kind(".obsidian", true), EntryKind::Skip);
    assert_eq!(entry_kind(".hidden.md", false), EntryKind::Skip);
    assert_eq!(entry_kind("sub", true), EntryKind::Descend);
    assert_eq!(entry_kind("sub.md", true), EntryKind::Descend);
    assert_eq!(entry_kind("Note.md", false), EntryKind::Note);
    assert_eq!(entry_kind("notes.txt", false), EntryKind::Skip);
}

#[test]
fn path_order_matches_std_paths() {
    let paths = ["a.md", "a/sub.md", "a/b/c.md", "ab.md", "b.md", "a-b.md", "Z.md"];
    for a in paths {
        for b in paths {
            assert_eq!(
                note_path(a).sorts_before(&note_path(b)),
                Path::new(a) < Path::new(b),
                "{a:?} {b:?}"
            );
            assert_eq!(note_path(a).same_as(&note_path(b)), a == b);
        }
    }
}

#[test]
fn path_display_and_stem() {
    let p = note_path("a/b/Note.md");
    assert_eq!(p.display(), "a/b/Note.md");
    assert_eq!(p.file_stem(), "Note");
    assert!(p.is_note());
    assert!(!note_path("a/.trash/Note.md").is_note());
    assert_eq!(note_path("").file_stem(), "");
}

// ---------------------------------------------------------------------------
// links
// ---------------------------------------------------------------------------

#[test]
fn parse_links_reads_all_parts() {
    let src = note_path("n.md");
    let links = parse_links("see [[Page#Part|shown]] and ![[Pic.png]] or [[Other|a#b]]", &src);
    assert_eq!(links.len(), 3);
    assert_eq!(links[0].page, "Page");
    assert_eq!(links[0].heading.as_deref(), Some("Part"));
    assert_eq!(links[0].alias.as_deref(), Some("shown"));
    assert!(!links[0].embed);
    assert_eq!(links[1].page, "Pic.png");
    assert!(links[1].embed);
    assert_eq!(links[1].heading, None);
    assert_eq!(links[2].page, "Other");
    assert_eq!(links[2].heading, None);
    assert_eq!(links[2].alias.as_deref(), Some("a#b"));
    assert_eq!(links[2].src.display(), "n.md");
}

#[test]
fn parse_links_skips_what_is_not_a_link() {
    let src = note_path("n.md");
    let pages = |t: &str| -> Vec<String> { parse_links(t, &src).into_iter().map(|l| l.page).collect() };
    assert!(pages("no links [x] [[open").is_empty());
    assert!(pages("[[#only heading]] [[]] [[|alias]]").is_empty());
    assert!(pages("[[split\nline]]").is_empty());
    assert_eq!(pages("[[a [[b]]"), ["b"]);
    assert_eq!(pages("[[a]][[b]]"), ["a", "b"]);
    assert_eq!(pages("[[[c]]]"), ["c"]);
    assert_eq!(pages("[[ spaced ]]"), [" spaced "]);
}

// ---------------------------------------------------------------------------
// vault
// ---------------------------------------------------------------------------

#[test]
fn scan_keeps_the_latest_duplicate_date() {
    let vault = vault_of(&[("a.md", Some(1)), ("b/c.md", None), ("a.md", Some(2))]);
    assert_eq!(vault.files().len(), 3);
    assert_eq!(vault.date_created(&note_path("a.md")), Some(2));
    assert_eq!(vault.date_created(&note_path("b/c.md")), None);
    assert_eq!(vault.root(), "/v");
}

#[test]
fn note_exists_answers_to_stems_only() {
    let vault = vault_of(&[("x/Note.md", None), ("Other.md", None)]);
    assert!(vault.note_exists("Note"));
    assert!(vault.note_exists("\tOther\n"));
    assert!(!vault.note_exists("Note.md"));
    assert!(!vault.note_exists("x/Note"));
}

// ---------------------------------------------------------------------------
// graph
// ---------------------------------------------------------------------------

#[test]
fn graph_has_one_node_per_name_and_edges_in_order() {
    let vault = vault_of(&[("a.md", Some(5)), ("b.md", Some(7)), ("sub/a.md", Some(1))]);
    let graph = graph_of(&vault, &[("a.md", "[[b]] [[c]] [[b]]"), ("b.md", "[[a]]"), ("sub/a.md", "[[d]]")]);
    let mut names: Vec<String> = graph.nodes.iter().map(|n| n.name.clone()).collect();
    names.sort();
    assert_eq!(names, ["a", "b", "c", "d"]);
    assert_eq!(targets(&graph, "a"), ["b", "c", "b", "d"]);
    assert_eq!(targets(&graph, "b"), ["a"]);
    assert!(targets(&graph, "c").is_empty());
    assert!(graph.nodes[index_of(&graph, "a")].exists);
    assert!(!graph.nodes[index_of(&graph, "c")].exists);
    // The first note named "a" in path order is "a.md".
    assert_eq!(graph.nodes[index_of(&graph, "a")].date_created, Some(5));
    assert_eq!(graph.nodes[index_of(&graph, "c")].date_created, None);
    assert!(graph.nodes.iter().all(|n| !n.appeared));
    let edges: usize = graph.nodes.iter().map(|n| n.edges.len()).sum();
    assert_eq!(edges, 5);
}

#[test]
fn linked_page_with_spaces_exists_when_trimmed_name_does() {
    let vault = vault_of(&[("a.md", None), ("b.md", None)]);
    let graph = graph_of(&vault, &[("a.md", "[[ b ]]")]);
    let spaced = &graph.nodes[index_of(&graph, " b ")];
    assert!(spaced.exists);
    assert_eq!(spaced.date_created, None);
    assert_eq!(graph.nodes.len(), 3);
}

#[test]
fn nodes_exist_exactly_when_a_note_has_their_name() {
    let vault = vault_of(&[("n/One.md", None), ("Two.md", None)]);
    let graph = graph_of(&vault, &[("n/One.md", "[[Two]] [[Three]]"), ("Two.md", "[[One]]")]);
    for node in &graph.nodes {
        assert_eq!(node.exists, vault.note_exists(&node.name), "{}", node.name);
    }
}

// ---------------------------------------------------------------------------
// spawn
// ---------------------------------------------------------------------------

#[test]
fn spawn_order_by_time_then_name_undated_last() {
    let vault = vault_of(&[("b.md", Some(10)), ("a.md", Some(10)), ("c.md", Some(3))]);
    let mut graph = graph_of(&vault, &[("a.md", "[[z]] [[y]]")]);
    let mut spawn = Spawn::from_graph(&mut graph);
    let mut order = Vec::new();
    loop {
        let before: Vec<bool> = graph.nodes.iter().map(|n| n.appeared).collect();
        if spawn.advance(&mut graph, 1) == 0 {
            break;
        }
        let k = (0..graph.nodes.len()).find(|&k| graph.nodes[k].appeared && !before[k]).unwrap();
        order.push(graph.nodes[k].name.clone());
    }
    assert_eq!(order, ["c", "a", "b", "y", "z"]);
}

#[test]
fn advance_shows_at_most_what_is_left() {
    let vault = vault_of(&[("a.md", Some(1)), ("b.md", Some(2))]);
    let mut graph = graph_of(&vault, &[]);
    let mut spawn = Spawn::from_graph(&mut graph);
    assert_eq!(spawn.advance(&mut graph, 0), 0);
    assert!(graph.nodes.iter().all(|n| !n.appeared));
    assert_eq!(spawn.advance(&mut graph, 5), 2);
    assert!(graph.nodes.iter().all(|n| n.appeared));
    assert_eq!(spawn.advance(&mut graph, 5), 0);

    spawn.reset_from(&mut graph);
    assert!(graph.nodes.iter().all(|n| !n.appeared));
    assert_eq!(spawn.advance(&mut graph, 1), 1);
    assert!(graph.nodes[index_of(&graph, "a")].appeared);
    assert!(!graph.nodes[index_of(&graph, "b")].appeared);
}

// ---------------------------------------------------------------------------
// view
// ---------------------------------------------------------------------------

#[test]
fn shown_links_need_both_ends_appeared() {
    let vault = vault_of(&[("a.md", Some(1)), ("b.md", Some(2))]);
    let mut graph = graph_of(&vault, &[("a.md", "[[b]] [[c]] [[a]]"), ("b.md", "[[a]]")]);
    assert!(shown_links(&graph).is_empty());
    let a = index_of(&graph, "a");
    let b = index_of(&graph, "b");
    let mut spawn = Spawn::from_graph(&mut graph);
    spawn.advance(&mut graph, 1);
    assert_eq!(shown_links(&graph), [(a, a)]);
    spawn.advance(&mut graph, 1);
    assert_eq!(shown_links(&graph), [(a, b), (a, a), (b, a)]);
}

#[test]
fn node_styles() {
    let vault = vault_of(&[("a.md", None)]);
    let graph = graph_of(&vault, &[("a.md", "[[gone]]")]);
    let a = &graph.nodes[index_of(&graph, "a")];
    let gone = &graph.nodes[index_of(&graph, "gone")];
    assert_eq!(node_style(a, false), NodeStyle::Normal);
    assert_eq!(node_style(gone, false), NodeStyle::Missing);
    assert_eq!(node_style(gone, true), NodeStyle::Highlight);
}

#[test]
fn parse_links_ignores_fenced_code() {
    let src = note_path("n.md");
    let pages = |t: &str| -> Vec<String> { parse_links(t, &src).into_iter().map(|l| l.page).collect() };
    let text = "before [[a]]\n```rust\n[[code]]\n```\nafter [[b]]\n~~~\n[[t]]\n```\n[[still]]\n~~~\n[[c]]";
    assert_eq!(pages(text), ["a", "b", "c"]);
    assert_eq!(pages("   ```\n[[hidden]]\n   ```\n[[shown]]"), ["shown"]);
    assert_eq!(pages("    ```[[x]]\n[[y]]"), ["x", "y"]);
    assert!(pages("```\n[[never closed]]").is_empty());
    assert!(pages("``` [[on the fence]]").is_empty());
}
