use md_depgraph::extract::{extract_bytes, headings_in_file};
use md_depgraph::syntax::{parse_markdown, tree_syntax};
use md_depgraph::{Directive, DirectiveKind, ExtractError};

fn extract(src: &str) -> Vec<Directive> {
    extract_bytes(src.as_bytes(), "test.md").unwrap()
}

#[test]
fn extracts_constrained_by() {
    let dirs = extract("<!-- constrained-by ./reqs.md#rationale -->\n");
    assert_eq!(dirs.len(), 1);
    assert_eq!(dirs[0].kind, DirectiveKind::ConstrainedBy);
    assert_eq!(dirs[0].target_section.as_deref(), Some("rationale"));
}

#[test]
fn extracts_same_file_anchor() {
    let dirs = extract("<!-- derived-from #design -->\n");
    assert_eq!(dirs.len(), 1);
    assert_eq!(dirs[0].kind, DirectiveKind::DerivedFrom);
    assert!(dirs[0].target_file.is_none());
    assert_eq!(dirs[0].target_section.as_deref(), Some("design"));
}

#[test]
fn detects_source_section() {
    let src = "## My Heading\n\n<!-- blocked-by #other -->\n";
    let dirs = extract(src);
    assert_eq!(dirs.len(), 1);
    assert_eq!(dirs[0].source_section.as_deref(), Some("my-heading"));
}

#[test]
fn ignores_plain_html_comment() {
    let dirs = extract("<!-- just a comment -->\n");
    assert_eq!(dirs.len(), 0);
}

#[test]
fn multiple_directives() {
    let src = "<!-- constrained-by ./a.md#sec -->\n<!-- supersedes ./b.md -->\n";
    let dirs = extract(src);
    assert_eq!(dirs.len(), 2);
}

#[test]
fn directive_fields_are_filled_in() {
    let src = "# Top\n\n<!-- supersedes ./b.md -->\n";
    let dirs = extract(src);
    assert_eq!(dirs.len(), 1);
    let d = &dirs[0];
    assert_eq!(d.kind, DirectiveKind::Supersedes);
    assert_eq!(d.source_file, "test.md");
    assert_eq!(d.source_section.as_deref(), Some("top"));
    assert_eq!(d.target_file.as_deref(), Some("./b.md"));
    assert_eq!(d.target_section, None);
    let (start, end) = d.span;
    assert_eq!(start, 7);
    assert!(src[start..end].trim() == "<!-- supersedes ./b.md -->");
}

#[test]
fn directive_before_any_heading_has_document_scope() {
    let dirs = extract("<!-- blocked-by ./x.md -->\n\n# Later\n");
    assert_eq!(dirs.len(), 1);
    assert_eq!(dirs[0].source_section, None);
}

#[test]
fn unknown_kind_and_bad_targets_are_skipped() {
    let src = "<!-- depends-on ./a.md -->\n\n<!-- blocked-by -->\n\n<!-- blocked-by /abs/path.md -->\n\n<!-- blocked-by # -->\n\n<!-- derived-from ./ok.md -->\n";
    let dirs = extract(src);
    assert_eq!(dirs.len(), 1);
    assert_eq!(dirs[0].kind, DirectiveKind::DerivedFrom);
}

#[test]
fn duplicate_heading_sections_get_suffixes() {
    let src = "## Usage\n\ntext\n\n## Usage\n\n<!-- derived-from #usage -->\n";
    let dirs = extract(src);
    assert_eq!(dirs.len(), 1);
    assert_eq!(dirs[0].source_section.as_deref(), Some("usage-1"));
}

#[test]
fn invalid_utf8_comment_is_an_error() {
    let mut src = b"<!-- blocked-by ./a".to_vec();
    src.push(0xff);
    src.extend_from_slice(b".md -->\n");
    let r = extract_bytes(&src, "bad.md");
    match r {
        Err(ExtractError::InvalidUtf8 { start, end }) => {
            assert_eq!(start, 0);
            assert!(end >= src.len() - 1);
        }
        other => panic!("expected InvalidUtf8, got {other:?}"),
    }
}

#[test]
fn headings_in_file_lists_unique_slugs_in_order() {
    let src = "# Title\n\n## Usage\n\n## Usage\n\nSetext Heading\n==============\n";
    let slugs = headings_in_file(src.as_bytes()).unwrap();
    assert_eq!(slugs, vec!["title", "usage", "usage-1", "setext-heading"]);
}

#[test]
fn unicode_white_space_splits_kind_and_target() {
    // U+00A0 (no-break space) separates the kind from the target.
    let dirs = extract("<!-- blocked-by\u{a0}#next -->\n");
    assert_eq!(dirs.len(), 1);
    assert_eq!(dirs[0].target_section.as_deref(), Some("next"));
}

#[test]
fn syntax_nodes_come_in_preorder_with_depths() {
    let nodes = parse_markdown(b"# Title\n\n<!-- blocked-by #title -->\n").unwrap();
    assert_eq!(nodes[0].kind, "document");
    assert_eq!(nodes[0].depth, 0);
    assert_eq!(nodes[0].start, 0);
    let heading = nodes.iter().position(|n| n.kind == "atx_heading").unwrap();
    assert!(nodes[heading + 1..].iter().any(|n| n.kind == "atx_h1_marker" && n.depth == nodes[heading].depth + 1));
    assert!(nodes.iter().any(|n| n.kind == "html_block"));
    for w in nodes.windows(2) {
        assert!(w[1].depth <= w[0].depth + 1);
    }
}

#[test]
fn extracted_target_file_is_resolved_against_the_source_directory() {
    let dirs = extract_bytes(b"<!-- blocked-by ./b.md#x -->\n", "docs/a.md").unwrap();
    assert_eq!(dirs.len(), 1);
    assert_eq!(dirs[0].target_file.as_deref(), Some("docs/./b.md"));
    assert_eq!(dirs[0].source_file, "docs/a.md");
}

#[test]
fn non_comment_html_block_is_not_read() {
    let mut src = b"<div>".to_vec();
    src.push(0xff);
    src.extend_from_slice(b"</div>\n\n<!-- supersedes ./b.md -->\n");
    let dirs = extract_bytes(&src, "a.md").unwrap();
    assert_eq!(dirs.len(), 1);
    assert_eq!(dirs[0].kind, DirectiveKind::Supersedes);
}

#[test]
fn tree_syntax_lists_the_parsed_tree() {
    let src = b"# Title\n\ntext\n";
    let mut parser = tree_sitter::Parser::new();
    parser.set_language(&tree_sitter_md::LANGUAGE.into()).unwrap();
    let tree = parser.parse(&src[..], None).unwrap();
    let nodes = tree_syntax(&tree);
    assert_eq!(nodes.len(), tree.root_node().descendant_count());
    assert_eq!(nodes[0].kind, "document");
    assert_eq!(nodes[0].end, src.len());
    let parsed = parse_markdown(src).unwrap();
    assert_eq!(parsed.len(), nodes.len());
    for (a, b) in parsed.iter().zip(nodes.iter()) {
        assert_eq!((a.kind.as_str(), a.start, a.end, a.depth), (b.kind.as_str(), b.start, b.end, b.depth));
    }
}

#[test]
fn each_kind_reads_a_same_file_anchor() {
    for kind in [
        DirectiveKind::ConstrainedBy,
        DirectiveKind::BlockedBy,
        DirectiveKind::Supersedes,
        DirectiveKind::DerivedFrom,
    ] {
        let src = format!("<!-- {} #x -->\n", kind.as_str());
        let dirs = extract_bytes(src.as_bytes(), "t.md").unwrap();
        assert_eq!(dirs.len(), 1);
        assert_eq!(dirs[0].kind, kind);
        assert!(dirs[0].target_file.is_none());
        assert_eq!(dirs[0].target_section.as_deref(), Some("x"));
    }
}

#[test]
fn directive_spans_are_non_empty_and_in_order() {
    let src = "# A\n\n<!-- blocked-by #a -->\n\ntext\n\n<!-- supersedes ./b.md -->\n<!-- derived-from ./c.md#d -->\n";
    let dirs = extract_bytes(src.as_bytes(), "t.md").unwrap();
    assert_eq!(dirs.len(), 3);
    for d in &dirs {
        assert!(d.span.0 < d.span.1 && d.span.1 <= src.len());
    }
    for w in dirs.windows(2) {
        assert!(w[0].span.1 <= w[1].span.0);
    }
}
