// Small multi-document projects, written out inline and handed to the
// byte-level extraction under the paths they would have on disk.

use md_depgraph::extract::extract_bytes;
use md_depgraph::graph::Graph;
use md_depgraph::resolve::validate_target;
use md_depgraph::{Directive, DirectiveKind, ResolveError};

const PROJECT: &str = "fixtures/project";
const MULTI: &str = "fixtures/multi";

const IMPL_MD: &str = "# Implementation\n\n<!-- derived-from ./reqs.md#rationale -->\n\n## Setup\n\n<!-- blocked-by ./reqs.md#requirements -->\n<!-- constrained-by ./reqs.md -->\n<!-- supersedes #setup -->\n";
const REQS_MD: &str = "# Requirements doc\n\n## Rationale\n\nWhy.\n\n## Requirements\n\nWhat.\n";

const A_MD: &str = "# A\n\n## Alpha\n\n<!-- derived-from ./b.md#gamma -->\n\n## Beta\n\n<!-- constrained-by ./b.md#gamma -->\n<!-- blocked-by ./c.md -->\n";
const B_MD: &str = "# B\n\n## Gamma\n\n<!-- supersedes ./a.md#alpha -->\n\n## Delta\n\n<!-- derived-from ./a.md#beta -->\n<!-- constrained-by ./a.md#beta -->\n";
const C_MD: &str = "# C\n\nNo directives here.\n";
const BROKEN_MD: &str = "# Broken\n\n<!-- constrained-by ./no-such-file.md -->\n<!-- derived-from ./a.md#no-such-section -->\n";

fn file_contents(path: &str) -> Option<&'static str> {
    let name = path.rsplit('/').next().unwrap();
    match name {
        "impl.md" => Some(IMPL_MD),
        "reqs.md" => Some(REQS_MD),
        "a.md" => Some(A_MD),
        "b.md" => Some(B_MD),
        "c.md" => Some(C_MD),
        "broken.md" => Some(BROKEN_MD),
        _ => None,
    }
}

fn extract_file(dir: &str, name: &str) -> Vec<Directive> {
    let path = format!("{dir}/{name}");
    extract_bytes(file_contents(&path).unwrap().as_bytes(), &path).unwrap()
}

fn validate(file: &str, section: Option<&str>) -> Result<(), ResolveError> {
    validate_target(file, section, file_contents(file).map(|s| s.as_bytes()))
}

#[test]
fn extract_from_impl_md() {
    let directives = extract_file(PROJECT, "impl.md");
    assert_eq!(directives.len(), 4, "expected 4 directives in impl.md");

    let kinds: Vec<_> = directives.iter().map(|d| d.kind).collect();
    assert!(kinds.contains(&DirectiveKind::DerivedFrom));
    assert!(kinds.contains(&DirectiveKind::BlockedBy));
    assert!(kinds.contains(&DirectiveKind::ConstrainedBy));
    assert!(kinds.contains(&DirectiveKind::Supersedes));
}

#[test]
fn source_sections_inferred() {
    let directives = extract_file(PROJECT, "impl.md");

    let derived = directives.iter().find(|d| d.kind == DirectiveKind::DerivedFrom).unwrap();
    assert_eq!(derived.source_section.as_deref(), Some("implementation"));

    let blocked = directives.iter().find(|d| d.kind == DirectiveKind::BlockedBy).unwrap();
    assert_eq!(blocked.source_section.as_deref(), Some("setup"));
}

#[test]
fn same_file_anchor_has_no_target_file() {
    let directives = extract_file(PROJECT, "impl.md");

    let supersedes = directives.iter().find(|d| d.kind == DirectiveKind::Supersedes).unwrap();
    assert!(supersedes.target_file.is_none());
    assert_eq!(supersedes.target_section.as_deref(), Some("setup"));
}

#[test]
fn graph_from_project_dir_has_correct_edge_count() {
    let mut all = extract_file(PROJECT, "impl.md");
    all.extend(extract_file(PROJECT, "reqs.md"));
    let graph = Graph::from_directives(&all);
    assert_eq!(graph.edges.len(), 4);
}

#[test]
fn dot_output_contains_edge_labels() {
    let directives = extract_file(PROJECT, "impl.md");
    let graph = Graph::from_directives(&directives);
    let dot = graph.to_dot();
    assert!(dot.contains("derived-from"));
    assert!(dot.contains("blocked-by"));
    assert!(dot.contains("digraph"));
}

fn collect_valid_multi() -> Vec<Directive> {
    // Collect from a.md, b.md, c.md only (exclude broken.md).
    ["a.md", "b.md", "c.md"].iter().flat_map(|name| extract_file(MULTI, name)).collect()
}

#[test]
fn multi_doc_total_directive_count() {
    let directives = collect_valid_multi();
    assert_eq!(directives.len(), 6);
}

#[test]
fn multi_doc_cross_file_targets_resolved() {
    let directives = collect_valid_multi();
    let cross_file: Vec<_> = directives.iter().filter(|d| d.target_file.is_some()).collect();
    assert_eq!(cross_file.len(), 6);
}

#[test]
fn multi_doc_multiple_directives_in_one_section() {
    let directives = extract_file(MULTI, "b.md");

    let delta_dirs: Vec<_> =
        directives.iter().filter(|d| d.source_section.as_deref() == Some("delta")).collect();
    assert_eq!(delta_dirs.len(), 2, "## Delta must have exactly 2 directives");

    let kinds: Vec<_> = delta_dirs.iter().map(|d| d.kind).collect();
    assert!(kinds.contains(&DirectiveKind::DerivedFrom));
    assert!(kinds.contains(&DirectiveKind::ConstrainedBy));
}

#[test]
fn multi_doc_a_beta_has_two_directives() {
    let directives = extract_file(MULTI, "a.md");

    let beta_dirs: Vec<_> =
        directives.iter().filter(|d| d.source_section.as_deref() == Some("beta")).collect();
    assert_eq!(beta_dirs.len(), 2);

    let kinds: Vec<_> = beta_dirs.iter().map(|d| d.kind).collect();
    assert!(kinds.contains(&DirectiveKind::ConstrainedBy));
    assert!(kinds.contains(&DirectiveKind::BlockedBy));
}

#[test]
fn multi_doc_graph_edge_count() {
    let directives = collect_valid_multi();
    let graph = Graph::from_directives(&directives);
    assert_eq!(graph.edges.len(), 6);
}

#[test]
fn multi_doc_graph_node_count() {
    let directives = collect_valid_multi();
    let graph = Graph::from_directives(&directives);
    // a#alpha, a#beta, b#gamma, b#delta, c
    assert_eq!(graph.nodes.len(), 5);
}

#[test]
fn multi_doc_bidirectional_references_become_two_edges() {
    let directives = collect_valid_multi();
    let graph = Graph::from_directives(&directives);

    let a_to_b = graph.edges.iter().filter(|e| {
        e.source.section.as_deref() == Some("alpha") && e.target.section.as_deref() == Some("gamma")
    });
    let b_to_a = graph.edges.iter().filter(|e| {
        e.source.section.as_deref() == Some("gamma") && e.target.section.as_deref() == Some("alpha")
    });
    assert_eq!(a_to_b.count(), 1);
    assert_eq!(b_to_a.count(), 1);
}

#[test]
fn validate_detects_missing_file() {
    let directives = extract_file(MULTI, "broken.md");
    let missing_file = directives.iter().find(|d| d.kind == DirectiveKind::ConstrainedBy).unwrap();
    let target = missing_file.target_file.as_ref().unwrap();
    let err = validate(target, missing_file.target_section.as_deref()).unwrap_err();
    assert!(matches!(err, ResolveError::MissingFile(_)), "expected MissingFile, got: {err:?}");
}

#[test]
fn validate_detects_missing_section() {
    let directives = extract_file(MULTI, "broken.md");
    let missing_section = directives.iter().find(|d| d.kind == DirectiveKind::DerivedFrom).unwrap();
    let target = missing_section.target_file.as_ref().unwrap();
    let err = validate(target, missing_section.target_section.as_deref()).unwrap_err();
    assert!(
        matches!(err, ResolveError::MissingSection { .. }),
        "expected MissingSection, got: {err:?}"
    );
}

#[test]
fn validate_valid_cross_file_refs_pass() {
    let directives = collect_valid_multi();
    for d in &directives {
        if let Some(file) = &d.target_file {
            validate(file, d.target_section.as_deref())
                .unwrap_or_else(|e| panic!("unexpected validation error: {e:?}"));
        }
    }
}
