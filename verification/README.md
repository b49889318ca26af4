# md_depgraph

Dependency directives in Markdown, verified with Verus.

A directive is an HTML comment such as `<!-- derived-from ./design.md#rationale -->`.
Its kind is one of `constrained-by`, `blocked-by`, `supersedes`, `derived-from`;
its target is a file, a file and section, or (`#section`) a section of the same
file. The section a directive belongs to is the nearest heading before it.

Layout:

- `src/text.rs` – characters, trimming, decimal numbers, text order.
- `src/syntax.rs` – the tree-sitter-md syntax tree as a flat list of nodes.
- `src/anchor.rs` – heading slugs, GitHub-style unique suffixes, the section of a position.
- `src/extract.rs` – reading directive comments out of a parsed document.
- `src/resolve.rs` – target parsing and target checking.
- `src/paths.rs` – path components, by which graph nodes are identified and ordered.
- `src/graph.rs` – the dependency graph and its DOT rendering.
- `app/` – the command-line tool (file walking, reading, JSON output).
