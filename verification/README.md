# obsidian_graph

A viewer for the graph of an Obsidian-style vault: every Markdown note is a
node, every `[[wiki link]]` an edge, and the nodes drift into place under a
force layout, appearing one by one in the order the notes were written.

The library in `src/` holds the logic, verified with Verus:

- `text` — white-space trimming and the lexicographic order on text;
- `path` — note paths, stems and extensions, and which entries a walk of the
  vault keeps;
- `link` — the wiki links in a note's text;
- `vault` — the sorted notes of a vault, their stems and creation times;
- `graph` — the graph built from a vault and its notes' texts;
- `spawn` — the order in which nodes appear, and the queue that shows them;
- `view` — which links are on show and how each node is marked;
- `laws` — properties that hold across these operations;
- `cli` — the program's settings.

The program in `app/` walks the vault on disk, reads the notes, places the
nodes, runs the force layout and draws the graph with raylib.
