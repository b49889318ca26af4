use md_depgraph::graph::{Graph, NodeId};
use md_depgraph::{Directive, DirectiveKind};

fn dir(
    kind: DirectiveKind,
    src: &str,
    src_sec: Option<&str>,
    tgt: Option<&str>,
    tgt_sec: Option<&str>,
) -> Directive {
    Directive {
        kind,
        source_file: src.to_string(),
        source_section: src_sec.map(str::to_string),
        target_file: tgt.map(str::to_string),
        target_section: tgt_sec.map(str::to_string),
        span: (0, 0),
    }
}

#[test]
fn empty_graph_dot_has_no_nodes_or_edges() {
    let dot = Graph::default().to_dot();
    assert!(dot.contains("digraph {"));
    assert!(!dot.contains("n0"));
}

#[test]
fn dot_label_escapes_double_quotes() {
    let d = dir(
        DirectiveKind::DerivedFrom,
        "a.md",
        Some("say-\"hello\""),
        Some("b.md"),
        None,
    );
    let dot = Graph::from_directives(&[d]).to_dot();
    // The literal characters \" must appear inside the DOT label.
    assert!(dot.contains("\\\""), "double-quote not escaped in DOT:\n{dot}");
}

#[test]
fn all_four_edge_styles_appear_in_dot() {
    let directives = vec![
        dir(DirectiveKind::ConstrainedBy, "a.md", None, Some("b.md"), None),
        dir(DirectiveKind::BlockedBy, "c.md", None, Some("d.md"), None),
        dir(DirectiveKind::Supersedes, "e.md", None, Some("f.md"), None),
        dir(DirectiveKind::DerivedFrom, "g.md", None, Some("h.md"), None),
    ];
    let dot = Graph::from_directives(&directives).to_dot();
    assert!(dot.contains("color=\"blue\""));
    assert!(dot.contains("color=\"red\""));
    assert!(dot.contains("color=\"orange\""));
    assert!(dot.contains("color=\"green\""));
    assert!(dot.contains("style=\"solid\""));
    assert!(dot.contains("style=\"dashed\""));
}

#[test]
fn to_dot_is_deterministic() {
    let directives = vec![
        dir(DirectiveKind::ConstrainedBy, "z.md", None, Some("a.md"), None),
        dir(DirectiveKind::BlockedBy, "m.md", None, Some("b.md"), None),
    ];
    let g = Graph::from_directives(&directives);
    assert_eq!(g.to_dot(), g.to_dot());
}

#[test]
fn nodes_are_sorted_by_file_then_section() {
    let directives = vec![
        dir(DirectiveKind::DerivedFrom, "b.md", Some("z"), Some("a.md"), Some("a")),
        dir(DirectiveKind::DerivedFrom, "a.md", Some("m"), Some("a.md"), Some("a")),
    ];
    let g = Graph::from_directives(&directives);
    let files: Vec<_> = g.nodes.iter().map(|n| n.file.as_str()).collect();
    let sorted = {
        let mut f = files.clone();
        f.sort();
        f
    };
    assert_eq!(files, sorted);
}

#[test]
fn dot_text_is_exact() {
    let directives = vec![
        dir(DirectiveKind::DerivedFrom, "b.md", Some("x"), Some("a.md"), None),
        dir(DirectiveKind::Supersedes, "a.md", None, None, Some("top")),
    ];
    let dot = Graph::from_directives(&directives).to_dot();
    let expected = "digraph {\n  rankdir=LR;\n  node [shape=box];\n  n0 [label=\"a.md\"];\n  n1 [label=\"a.md#top\"];\n  n2 [label=\"b.md#x\"];\n  n2 -> n0 [label=\"derived-from\", color=\"green\", style=\"solid\"];\n  n0 -> n1 [label=\"supersedes\", color=\"orange\", style=\"dashed\"];\n}";
    assert_eq!(dot, expected);
}

#[test]
fn same_path_written_differently_is_one_node() {
    let directives = vec![
        dir(DirectiveKind::BlockedBy, "docs/a.md", None, Some("docs/./b.md"), None),
        dir(DirectiveKind::BlockedBy, "docs/b.md", None, Some("docs//a.md"), None),
    ];
    let g = Graph::from_directives(&directives);
    assert_eq!(g.nodes.len(), 2);
    // The first spelling of each place names its node.
    assert_eq!(g.nodes[0].file, "docs/a.md");
    assert_eq!(g.nodes[1].file, "docs/./b.md");
    assert_eq!(g.edges.len(), 2);
    let dot = g.to_dot();
    assert!(dot.contains("n0 -> n1"));
    assert!(dot.contains("n1 -> n0"));
}

#[test]
fn nodes_without_section_come_first_and_paths_sort_by_component() {
    let directives = vec![
        dir(DirectiveKind::BlockedBy, "a.md", Some("s"), Some("a/b.md"), None),
        dir(DirectiveKind::BlockedBy, "a.md", None, Some("a.md"), Some("s")),
    ];
    let g = Graph::from_directives(&directives);
    let keys: Vec<(String, Option<String>)> =
        g.nodes.iter().map(|n| (n.file.clone(), n.section.clone())).collect();
    // Path order compares components: "a" < "a.md", so "a/b.md" precedes "a.md".
    assert_eq!(
        keys,
        vec![
            ("a/b.md".to_string(), None),
            ("a.md".to_string(), None),
            ("a.md".to_string(), Some("s".to_string())),
        ]
    );
}

#[test]
fn one_edge_per_directive_and_endpoints_are_nodes() {
    let directives = vec![
        dir(DirectiveKind::DerivedFrom, "a.md", Some("alpha"), Some("b.md"), Some("gamma")),
        dir(DirectiveKind::Supersedes, "b.md", Some("gamma"), Some("a.md"), Some("alpha")),
        dir(DirectiveKind::BlockedBy, "a.md", Some("alpha"), Some("b.md"), Some("gamma")),
    ];
    let g = Graph::from_directives(&directives);
    assert_eq!(g.edges.len(), 3);
    assert_eq!(g.nodes.len(), 2);
    for (e, d) in g.edges.iter().zip(&directives) {
        assert_eq!(e.kind, d.kind);
        assert_eq!(e.source.file, d.source_file);
        assert_eq!(e.target.section, d.target_section);
    }
}

#[test]
fn node_equality_follows_path_components() {
    let a = NodeId { file: "docs/./a.md".to_string(), section: Some("s".to_string()) };
    let b = NodeId { file: "docs//a.md/".to_string(), section: Some("s".to_string()) };
    let c = NodeId { file: "./docs/a.md".to_string(), section: Some("s".to_string()) };
    let d = NodeId { file: "docs/a.md".to_string(), section: None };
    assert!(a == b);
    assert!(a != c);
    assert!(a != d);
}

#[test]
fn node_numbers_past_nine_are_written_in_decimal() {
    let directives: Vec<Directive> = (0..6)
        .map(|i| {
            dir(
                DirectiveKind::BlockedBy,
                &format!("s{i}.md"),
                None,
                Some(&format!("t{i}.md")),
                None,
            )
        })
        .collect();
    let g = Graph::from_directives(&directives);
    assert_eq!(g.nodes.len(), 12);
    let dot = g.to_dot();
    assert!(dot.contains("  n11 [label=\"t5.md\"];\n"));
    assert!(dot.contains("  n5 -> n11 [label=\"blocked-by\""));
}
