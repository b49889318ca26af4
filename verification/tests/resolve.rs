use md_depgraph::resolve::{
    check_section, parse_target, resolve_path, split_target, validate_target, validation_target,
};
use md_depgraph::{Directive, DirectiveKind, ResolveError};

#[test]
fn parse_same_file_anchor() {
    let (file, section) = parse_target("#my section", "/docs/a.md").unwrap();
    assert!(file.is_none());
    assert_eq!(section.as_deref(), Some("my-section"));
}

#[test]
fn parse_path_with_anchor() {
    let (file, section) = parse_target("../reqs.md#rationale", "/docs/a.md").unwrap();
    assert!(file.is_some());
    assert_eq!(section.as_deref(), Some("rationale"));
}

#[test]
fn parse_path_only() {
    let (file, section) = parse_target("./other.md", "/docs/a.md").unwrap();
    assert!(file.is_some());
    assert!(section.is_none());
}

#[test]
fn absolute_path_rejected() {
    let err = parse_target("/absolute/path.md", "/docs/a.md");
    assert!(matches!(err, Err(ResolveError::AbsolutePath(_))));
}

#[test]
fn resolved_path_is_relative_to_the_source_directory() {
    let (file, _) = parse_target("../reqs.md#rationale", "/docs/a.md").unwrap();
    assert_eq!(file.as_deref(), Some("/docs/../reqs.md"));
    let (file, _) = parse_target("b.md", "a.md").unwrap();
    assert_eq!(file.as_deref(), Some("b.md"));
    let (file, _) = parse_target("b.md", "dir/a.md").unwrap();
    assert_eq!(file.as_deref(), Some("dir/b.md"));
}

#[test]
fn resolve_path_joins_onto_the_parent_directory() {
    assert_eq!(resolve_path("b.md", "dir/a.md"), "dir/b.md");
    assert_eq!(resolve_path("../b.md", "/docs/sub/a.md"), "/docs/sub/../b.md");
    assert_eq!(resolve_path("b.md", "a.md"), "b.md");
    assert_eq!(resolve_path("b.md", ""), "./b.md");
    assert_eq!(resolve_path("b.md", "/"), "./b.md");
}

#[test]
fn malformed_targets() {
    assert!(matches!(parse_target("   ", "a.md"), Err(ResolveError::MalformedTarget(s)) if s.is_empty()));
    assert!(matches!(parse_target(" ## ", "a.md"), Err(ResolveError::MalformedTarget(s)) if s == "##"));
}

#[test]
fn split_target_forms() {
    let (p, s) = split_target("  ./b.md#Some Section  ").unwrap();
    assert_eq!(p.as_deref(), Some("./b.md"));
    assert_eq!(s.as_deref(), Some("some-section"));
    let (p, s) = split_target("./b.md#   ").unwrap();
    assert_eq!(p.as_deref(), Some("./b.md"));
    assert_eq!(s, None);
    let (p, s) = split_target("###Title").unwrap();
    assert_eq!(p, None);
    assert_eq!(s.as_deref(), Some("title"));
    let (p, s) = split_target("x.md#a#b").unwrap();
    assert_eq!(p.as_deref(), Some("x.md"));
    assert_eq!(s.as_deref(), Some("ab"));
    assert!(matches!(split_target("/x.md"), Err(ResolveError::AbsolutePath(s)) if s == "/x.md"));
}

#[test]
fn validate_reports_missing_file() {
    let r = validate_target("docs/none.md", Some("x"), None);
    assert!(matches!(r, Err(ResolveError::MissingFile(f)) if f == "docs/none.md"));
    let r = validate_target("docs/none.md", None, None);
    assert!(matches!(r, Err(ResolveError::MissingFile(_))));
}

#[test]
fn validate_reports_missing_section() {
    let contents = b"# Title\n\n## Usage\n";
    let r = validate_target("doc.md", Some("install"), Some(&contents[..]));
    match r {
        Err(ResolveError::MissingSection { file, section }) => {
            assert_eq!(file, "doc.md");
            assert_eq!(section, "install");
        }
        other => panic!("expected MissingSection, got {other:?}"),
    }
}

#[test]
fn validate_accepts_present_section_and_whole_file() {
    let contents = b"# Title\n\n## Usage\n\n## Usage\n";
    assert!(validate_target("doc.md", Some("usage-1"), Some(&contents[..])).is_ok());
    assert!(validate_target("doc.md", Some("title"), Some(&contents[..])).is_ok());
    assert!(validate_target("doc.md", None, Some(&[][..])).is_ok());
}

#[test]
fn check_section_against_slugs() {
    let slugs = vec!["a".to_string(), "b".to_string()];
    assert!(check_section("f.md", "b", &slugs).is_ok());
    assert!(matches!(check_section("f.md", "c", &slugs), Err(ResolveError::MissingSection { .. })));
}

fn directive(target_file: Option<&str>, target_section: Option<&str>) -> Directive {
    Directive {
        kind: DirectiveKind::BlockedBy,
        source_file: "docs/a.md".to_string(),
        source_section: None,
        target_file: target_file.map(|s| s.to_string()),
        target_section: target_section.map(|s| s.to_string()),
        span: (0, 10),
    }
}

#[test]
fn validation_target_picks_the_file_to_check() {
    assert_eq!(
        validation_target(&directive(Some("docs/b.md"), Some("x"))),
        Some(("docs/b.md".to_string(), Some("x".to_string())))
    );
    assert_eq!(
        validation_target(&directive(Some("docs/b.md"), None)),
        Some(("docs/b.md".to_string(), None))
    );
    assert_eq!(
        validation_target(&directive(None, Some("x"))),
        Some(("docs/a.md".to_string(), Some("x".to_string())))
    );
    assert_eq!(validation_target(&directive(None, None)), None);
}

#[test]
fn parse_target_resolves_against_the_source_directory() {
    let (file, section) = parse_target("a.md#x#y", "d/s.md").unwrap();
    assert_eq!(file.as_deref(), Some("d/a.md"));
    assert_eq!(section.as_deref(), Some("xy"));
    let (file, section) = parse_target("b.md#  ", "d/s.md").unwrap();
    assert_eq!(file.as_deref(), Some("d/b.md"));
    assert_eq!(section, None);
}
