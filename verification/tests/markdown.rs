use llmd::markdown::{estimate_tokens, extract_section, heading_depth, list_headings, window};

#[test]
fn test_heading_depth() {
    assert_eq!(heading_depth("# Foo"), 1);
    assert_eq!(heading_depth("## Bar"), 2);
    assert_eq!(heading_depth("### Baz"), 3);
    assert_eq!(heading_depth("not a heading"), 0);
    assert_eq!(heading_depth("##no space"), 0);
}

#[test]
fn test_extract_section() {
    let md = "# Top\n\n## Alpha\n\nalpha content\n\n## Beta\n\nbeta content\n";
    let result = extract_section(md, "Alpha").unwrap();
    assert!(result.contains("alpha content"));
    assert!(!result.contains("beta content"));
}

#[test]
fn test_estimate_tokens() {
    assert_eq!(estimate_tokens("1234"), 1);
    assert_eq!(estimate_tokens(""), 0);
}

#[test]
fn test_list_headings() {
    let md = "# Top\n\n## Sub\n\nsome text\n\n### Deep\n";
    let headings = list_headings(md);
    assert_eq!(headings.len(), 3);
    assert_eq!(headings[0], (1, "Top".to_string()));
    assert_eq!(headings[1], (2, "Sub".to_string()));
    assert_eq!(headings[2], (3, "Deep".to_string()));
}

#[test]
fn test_window() {
    let text = "a\nb\nc\nd\ne";
    assert_eq!(window(text, 2, 4), "b\nc\nd");
}

#[test]
fn extract_section_matches_case_insensitively() {
    let doc = "# Guide\n\n## API Design\n\nUse REST.\nVersion the routes.\n\n## Storage\n\nFiles.\n";
    assert_eq!(
        extract_section(doc, "api"),
        Some("## API Design\n\nUse REST.\nVersion the routes.\n".to_string())
    );
}

#[test]
fn extract_section_takes_the_earliest_match() {
    let doc = "## Notes\nfirst\n## Notes\nsecond\n";
    assert_eq!(extract_section(doc, "notes"), Some("## Notes\nfirst".to_string()));
}

#[test]
fn extract_section_keeps_deeper_headings_inside() {
    let doc = "## A\ntext\n### A.1\ninner\n#### A.1.1\ndeep\n## B\nother";
    assert_eq!(
        extract_section(doc, "A"),
        Some("## A\ntext\n### A.1\ninner\n#### A.1.1\ndeep".to_string())
    );
    assert_eq!(extract_section(doc, "a.1"), Some("### A.1\ninner\n#### A.1.1\ndeep".to_string()));
}

#[test]
fn extract_section_runs_to_the_end_of_the_text() {
    let doc = "# T\n## Last\nbody\nmore";
    assert_eq!(extract_section(doc, "last"), Some("## Last\nbody\nmore".to_string()));
}

#[test]
fn extract_section_without_a_match_is_none() {
    assert_eq!(extract_section("# A\n## B\n", "zzz"), None);
    assert_eq!(extract_section("", "a"), None);
    assert_eq!(extract_section("plain text with api inside", "api"), None);
}

#[test]
fn extract_section_by_exact_title_begins_at_that_heading() {
    let doc = "intro\n## Setup\none\n### Detail\ntwo\n## Usage\nthree\n";
    let got = extract_section(doc, "Detail").unwrap();
    assert!(got.starts_with("### Detail"));
    assert_eq!(got, "### Detail\ntwo");
}

#[test]
fn extract_section_folds_unicode_case() {
    let doc = "## ÜBERSICHT\ninhalt\n## Rest\n";
    assert_eq!(extract_section(doc, "übersicht"), Some("## ÜBERSICHT\ninhalt".to_string()));
}

#[test]
fn heading_depth_needs_a_space_after_the_run() {
    assert_eq!(heading_depth("#"), 0);
    assert_eq!(heading_depth("######"), 0);
    assert_eq!(heading_depth("###### six"), 6);
    assert_eq!(heading_depth(" # indented"), 0);
    assert_eq!(heading_depth("#\ttab"), 0);
    assert_eq!(heading_depth(""), 0);
}

#[test]
fn list_headings_trims_titles_and_handles_crlf() {
    let md = "#   Spaced   \r\ntext\r\n##\tnot\r\n## Two\r\n";
    let headings = list_headings(md);
    assert_eq!(headings, vec![(1, "Spaced".to_string()), (2, "Two".to_string())]);
}

#[test]
fn window_is_cut_to_the_lines_that_exist() {
    let text = "a\nb\nc";
    assert_eq!(window(text, 1, 1), "a");
    assert_eq!(window(text, 0, 2), "a\nb");
    assert_eq!(window(text, 2, 100), "b\nc");
    assert_eq!(window(text, 4, 9), "");
    assert_eq!(window(text, 3, 2), "");
    assert_eq!(window("", 1, 5), "");
}

#[test]
fn estimate_tokens_rounds_up_and_counts_bytes() {
    assert_eq!(estimate_tokens("a"), 1);
    assert_eq!(estimate_tokens("12345"), 2);
    assert_eq!(estimate_tokens("12345678"), 2);
    assert_eq!(estimate_tokens("é"), 1);
    assert_eq!(estimate_tokens("ééé"), 2);
}
