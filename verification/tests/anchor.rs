use md_depgraph::anchor::{collect_headings, slugify, source_section_for, unique_slug_list};
use md_depgraph::syntax::parse_markdown;

#[test]
fn slugify_basic() {
    assert_eq!(slugify("Hello World"), "hello-world");
    assert_eq!(slugify("My Section"), "my-section");
    assert_eq!(slugify("API_v2"), "api_v2");
    // '&' is stripped, adjacent spaces each become '-'
    assert_eq!(slugify("foo & bar!"), "foo--bar");
}

#[test]
fn duplicate_headings_get_github_suffixes() {
    let raw: Vec<String> = vec!["usage", "api", "usage", "usage", "api"]
        .into_iter()
        .map(|s| s.to_string())
        .collect();
    let result = unique_slug_list(&raw);
    assert_eq!(result, vec!["usage", "api", "usage-1", "usage-2", "api-1"]);
}

#[test]
fn source_section_before_directive() {
    let headings = vec![
        (0, "intro".to_string()),
        (100, "impl".to_string()),
        (200, "outro".to_string()),
    ];
    assert_eq!(source_section_for(&headings, 150), Some("impl".to_string()));
    assert_eq!(source_section_for(&headings, 50), Some("intro".to_string()));
    // heading at byte 0 < directive at byte 5 → "intro" is the preceding heading
    assert_eq!(source_section_for(&headings, 5), Some("intro".to_string()));
}

#[test]
fn source_section_none_before_first_heading() {
    let headings = vec![(10, "intro".to_string())];
    assert_eq!(source_section_for(&headings, 10), None);
    assert_eq!(source_section_for(&headings, 0), None);
    assert_eq!(source_section_for(&[], 99), None);
}

#[test]
fn literal_heading_occupying_a_suffix_is_skipped() {
    // "Usage 1" takes "usage-1" early, so the second "Usage" moves on to "usage-2".
    let raw: Vec<String> = vec!["usage", "usage-1", "usage"]
        .into_iter()
        .map(|s| s.to_string())
        .collect();
    assert_eq!(unique_slug_list(&raw), vec!["usage", "usage-1", "usage-2"]);
}

#[test]
fn first_occurrence_of_a_taken_literal_gets_a_suffix() {
    // "a-1" then "a" twice, then "a-1" again.
    let raw: Vec<String> = vec!["a-1", "a", "a", "a-1"]
        .into_iter()
        .map(|s| s.to_string())
        .collect();
    assert_eq!(unique_slug_list(&raw), vec!["a-1", "a", "a-2", "a-1-1"]);
}

#[test]
fn slugify_unicode_and_case() {
    assert_eq!(slugify("Ünïcode Straße"), "ünïcode-straße");
    assert_eq!(slugify("Über Uns"), "über-uns");
    assert_eq!(slugify("ΣΟΦΙΑ"), "σοφια");
    // U+0130 lowers to two characters: `i` and a combining dot above.
    assert_eq!(slugify("İ"), "i\u{307}");
    assert_eq!(slugify("日本語 見出し"), "日本語-見出し");
    assert_eq!(slugify("ABC-def_GHI"), "abc-def_ghi");
    assert_eq!(slugify(""), "");
    assert_eq!(slugify("!!!"), "");
}

#[test]
fn slug_has_no_ascii_upper_case() {
    for text in ["Hello World", "ABC xyz", "Mixed_Case-Text 42"] {
        let slug = slugify(text);
        assert!(!slug.chars().any(|c| c.is_ascii_uppercase()), "{slug}");
    }
}

#[test]
fn suffix_numbers_count_past_nine() {
    let raw: Vec<String> = std::iter::repeat("x".to_string()).take(12).collect();
    let out = unique_slug_list(&raw);
    assert_eq!(out[0], "x");
    assert_eq!(out[9], "x-9");
    assert_eq!(out[10], "x-10");
    assert_eq!(out[11], "x-11");
    let mut sorted = out.clone();
    sorted.sort();
    sorted.dedup();
    assert_eq!(sorted.len(), out.len());
}

#[test]
fn ascii_slugs_are_idempotent() {
    for text in ["Hello, World!", "a--b __c", "Mixed_Case-Text 42", ""] {
        let once = slugify(text);
        assert_eq!(slugify(&once), once);
        assert!(once.chars().all(|c| c.is_ascii_lowercase() || c.is_ascii_digit() || c == '-' || c == '_'));
    }
}

#[test]
fn headings_start_in_strictly_increasing_order() {
    let src = b"# One\n\n## Two\n\nThree\n=====\n\n> # Quoted\n";
    let nodes = parse_markdown(src).unwrap();
    let headings = collect_headings(src, &nodes);
    assert_eq!(headings.len(), 4);
    for w in headings.windows(2) {
        assert!(w[0].0 < w[1].0);
    }
}
