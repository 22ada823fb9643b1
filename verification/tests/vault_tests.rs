use obsidian_graph::graph::Graph;
use obsidian_graph::path::NotePath;
use obsidian_graph::spawn::Spawn;
use obsidian_graph::vault::{FileEntry, Vault};

const CREATED: i128 = 1_700_000_000_000_000_000;

fn note_path(rel: &str) -> NotePath {
    NotePath {
        parts: rel
            .split('/')
            .filter(|p| !p.is_empty())
            .map(|p| p.to_string())
            .collect(),
    }
}

/// A vault whose walk found `files` (relative paths), each just created.
fn scan_with(files: &[&str]) -> Vault {
    let listing = files
        .iter()
        .map(|rel| FileEntry {
            path: note_path(rel),
            created: Some(CREATED),
        })
        .collect();
    Vault::scan("/vault".to_string(), listing)
}

fn relative_files(vault: &Vault) -> Vec<String> {
    vault.files().iter().map(|p| p.display()).collect()
}

/// The vault of `notes` (relative path, text) and its graph.
fn vault_with_texts(notes: &[(&str, &str)]) -> (Vault, Graph) {
    let listing = notes
        .iter()
        .map(|(rel, _)| FileEntry {
            path: note_path(rel),
            created: Some(CREATED),
        })
        .collect();
    let vault = Vault::scan("/vault".to_string(), listing);
    let contents: Vec<String> = vault
        .files()
        .iter()
        .map(|p| {
            let rel = p.display();
            notes
                .iter()
                .find(|(r, _)| *r == rel)
                .map(|(_, t)| t.to_string())
                .unwrap()
        })
        .collect();
    let graph = vault.build_graph(&contents);
    (vault, graph)
}

fn node<'a>(graph: &'a Graph, name: &str) -> Option<&'a obsidian_graph::graph::Node> {
    graph.nodes.iter().find(|n| n.name == name)
}

fn link_names(graph: &Graph, name: &str) -> Vec<String> {
    node(graph, name)
        .unwrap()
        .edges
        .iter()
        .map(|e| graph.nodes[e.target].name.clone())
        .collect()
}

#[test]
fn subdir_links_resolve() {
    let (_vault, graph) = vault_with_texts(&[("index.md", "[[Note]]\n[[Missing]]"), ("sub/Note.md", "")]);

    let note = node(&graph, "Note").unwrap();
    assert!(note.exists);

    let missing = node(&graph, "Missing").unwrap();
    assert!(!missing.exists);

    let targets = link_names(&graph, "index");
    assert!(targets.contains(&"Note".to_string()));
}

#[test]
fn rebuild_reflects_file_changes() {
    let (_before, _) = vault_with_texts(&[("a.md", "[[b]]"), ("b.md", "")]);

    // a.md now links to c, c.md was added and b.md removed.
    let (_after, graph) = vault_with_texts(&[("a.md", "[[c]]"), ("c.md", "")]);

    assert!(graph.nodes.iter().any(|n| n.name == "c"));
    assert!(!graph.nodes.iter().any(|n| n.name == "b"));

    let a_links = link_names(&graph, "a");
    assert!(a_links.contains(&"c".to_string()));
}

/// Advances the spawn queue by `dt` seconds at `rate` nodes a second, as the
/// viewer's clock does.
fn advance_by_time(spawn: &mut Spawn, graph: &mut Graph, acc: &mut f64, rate: f64, dt: f64) {
    *acc += dt * rate;
    let whole = if *acc >= 1.0 { acc.floor() as usize } else { 0 };
    let shown = spawn.advance(graph, whole);
    *acc -= shown as f64;
}

#[test]
fn missing_notes_spawn_last() {
    let (_vault, mut graph) = vault_with_texts(&[("a.md", "[[Missing]]")]);

    let mut spawn = Spawn::from_graph(&mut graph);
    let rate = graph.nodes.len() as f64 / 3.0;
    let mut acc = 0.0;
    for _ in 0..1000 {
        advance_by_time(&mut spawn, &mut graph, &mut acc, rate, 0.1);
        if graph.nodes.iter().any(|n| n.name == "a" && n.appeared) {
            break;
        }
    }
    assert!(
        graph.nodes.iter().any(|n| n.name == "a" && n.appeared),
        "real note should appear"
    );
    assert!(
        !graph.nodes.iter().any(|n| n.name == "Missing" && n.appeared),
        "missing note should appear after real notes"
    );

    advance_by_time(&mut spawn, &mut graph, &mut acc, rate, 10.0);
    assert!(graph.nodes.iter().all(|n| n.appeared));
}

#[test]
fn reveal_all_shows_everything_immediately() {
    let (_vault, mut graph) = vault_with_texts(&[("a.md", "[[Missing]]")]);

    let mut spawn = Spawn::default();
    spawn.reveal_all(&mut graph);
    assert!(graph.nodes.iter().all(|n| n.appeared));

    let shown = spawn.advance(&mut graph, 10);
    assert_eq!(shown, 0);
    assert!(graph.nodes.iter().all(|n| n.appeared));
}

#[test]
fn exists_bare_name_in_subdir() {
    let vault = scan_with(&["sub/Note.md"]);
    assert!(vault.note_exists("Note"));
}

#[test]
fn exists_root_level() {
    let vault = scan_with(&["Note.md"]);
    assert!(vault.note_exists("Note"));
}

#[test]
fn exists_dangling_link() {
    let vault = scan_with(&["Note.md"]);
    assert!(!vault.note_exists("Missing"));
}

#[test]
fn exists_trims_whitespace() {
    let vault = scan_with(&["Note.md"]);
    assert!(vault.note_exists("  Note  "));
}

#[test]
fn exists_is_case_sensitive() {
    let vault = scan_with(&["Note.md"]);
    assert!(!vault.note_exists("note"));
}

#[test]
fn exists_empty_string() {
    let vault = scan_with(&["Note.md"]);
    assert!(!vault.note_exists(""));
    assert!(!vault.note_exists("   "));
}

#[test]
fn scan_skips_hidden_entries() {
    let vault = scan_with(&[".obsidian/a.md", ".hidden/b.md", "visible.md", "notes.txt"]);
    assert_eq!(relative_files(&vault), ["visible.md"]);
}

#[test]
fn scan_sorts_files() {
    let vault = scan_with(&["z.md", "a/sub.md", "m.md"]);
    assert_eq!(relative_files(&vault), ["a/sub.md", "m.md", "z.md"]);
}

#[test]
fn date_created_populated_for_existing_file() {
    let vault = scan_with(&["Note.md"]);
    assert!(vault.date_created(&note_path("Note.md")).is_some());
}

#[test]
fn date_created_none_for_missing_file() {
    let vault = scan_with(&["Note.md"]);
    assert!(vault.date_created(&note_path("Missing.md")).is_none());
}
