use codex_agentic::version::{is_newer, normalize_tag_name, parse_version};
use codex_agentic::markdown::{
    in_code_fence_at_end, needs_newline_before_heading, next_starts_with_atx_heading,
    sanitize_markdown_for_display, sanitize_markdown_headings,
};

#[test]
fn prerelease_version_is_not_considered_newer() {
    assert_eq!(is_newer("0.11.0-beta.1", "0.11.0"), None);
    assert_eq!(is_newer("1.0.0-rc.1", "1.0.0"), None);
}

#[test]
fn plain_semver_comparisons_work() {
    assert_eq!(is_newer("0.11.1", "0.11.0"), Some(true));
    assert_eq!(is_newer("0.11.0", "0.11.1"), Some(false));
    assert_eq!(is_newer("1.0.0", "0.9.9"), Some(true));
    assert_eq!(is_newer("0.9.9", "1.0.0"), Some(false));
}

#[test]
fn whitespace_is_ignored() {
    assert_eq!(
        parse_version(" 1.2.3 \n").map(|p| (p.maj, p.min, p.pat)),
        Some((1, 2, 3))
    );
    assert_eq!(is_newer(" 1.2.3 ", "1.2.2"), Some(true));
}

#[test]
fn apc_suffix_is_recognized_and_compares() {
    let a = parse_version("0.39.0-apc.1").unwrap();
    let b = parse_version("0.39.0-apc.2").unwrap();
    assert!(b > a);
    assert_eq!(is_newer("0.39.0-apc.2", "0.39.0"), Some(true));
    assert_eq!(is_newer("0.39.0", "0.39.0-apc.2"), Some(false));
}

#[test]
fn tag_names_are_normalized() {
    assert_eq!(normalize_tag_name("rust-v0.39.0"), Some("0.39.0"));
    assert_eq!(normalize_tag_name("v0.39.0"), Some("0.39.0"));
    assert_eq!(normalize_tag_name("0.39.0-apc.1"), Some("0.39.0-apc.1"));
    assert_eq!(normalize_tag_name("nightly"), None);
}

#[test]
fn version_plus_signs_and_overflow() {
    assert_eq!(
        parse_version("+1.+2.+3").map(|p| (p.maj, p.min, p.pat)),
        Some((1, 2, 3))
    );
    assert_eq!(parse_version("99999999999999999999.0.0"), None);
    assert_eq!(parse_version("1.2"), None);
    assert_eq!(parse_version("1.2.x"), None);
}

#[test]
fn test_sanitize_headings_inserts_newline() {
    let input = "I'll scan…## Architecture\nDetails";
    let out = sanitize_markdown_headings(input);
    println!("OUT=<{out}>");
    assert!(out.contains("\n\n## Architecture"));
}

#[test]
fn sanitize_skips_code_fences() {
    let input = "```\ncode## not a heading\n```\ntext## Real\n";
    let out = sanitize_markdown_headings(input);
    assert!(out.contains("code## not a heading"));
    assert!(out.contains("text\n\n## Real"));
}

#[test]
fn sanitize_display_matches_sanitize() {
    let input = "a## B\n";
    assert_eq!(
        sanitize_markdown_for_display(input),
        sanitize_markdown_headings(input)
    );
}

#[test]
fn heading_and_fence_helpers() {
    assert!(next_starts_with_atx_heading("## Title"));
    assert!(!next_starts_with_atx_heading("####### seven"));
    assert!(!next_starts_with_atx_heading("plain"));
    assert!(in_code_fence_at_end("```\nabc"));
    assert!(!in_code_fence_at_end("```\nabc\n```\n"));
    assert!(needs_newline_before_heading("prose", "## H"));
    assert!(!needs_newline_before_heading("prose\n", "## H"));
    assert!(!needs_newline_before_heading("```\nx", "## H"));
}
