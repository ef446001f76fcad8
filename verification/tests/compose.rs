use llmd::commands::compose::{
    auto_topics, build_document, build_section_index, extract_catme_excerpt, extract_issue_body,
    extract_keywords, extract_labels_and_title_from_frontmatter, extract_labels_from_frontmatter,
    is_reserved_file, merge_topics, parse_issue_frontmatter, resolve_sections_from_indices,
    select_by_keywords, task_header, IndexedSection, SectionSource, SelectionError, TopicDocument,
};
use llmd::commands::compose::{selected_sections, topics_to_take};

fn strings(v: &[&str]) -> Vec<String> {
    v.iter().map(|s| s.to_string()).collect()
}

fn section(label: &str, file: &str, heading: &str) -> IndexedSection {
    IndexedSection { label: label.to_string(), file: file.to_string(), heading: heading.to_string() }
}

const API: &str = "# API\n## Design\ntext\n### Auth\n#### Deep\n";

fn docs() -> Vec<(String, String)> {
    vec![
        ("/p/.llmd/api.md".to_string(), API.to_string()),
        ("/p/.llmd/guides/setup.md".to_string(), "intro\n## Install\nrun it\n".to_string()),
    ]
}

#[test]
fn build_section_index_lists_headings_of_depth_two_and_three() {
    let index = build_section_index("/p/.llmd", &docs());
    assert_eq!(
        index,
        vec![
            section("api > Design", "/p/.llmd/api.md", "Design"),
            section("api > Auth", "/p/.llmd/api.md", "Auth"),
            section("guides/setup > Install", "/p/.llmd/guides/setup.md", "Install"),
        ]
    );
}

#[test]
fn build_section_index_of_no_documents_is_empty() {
    assert!(build_section_index("/p/.llmd", &vec![]).is_empty());
    let only_titles = vec![("/p/.llmd/a.md".to_string(), "# One\n#### Four\n".to_string())];
    assert!(build_section_index("/p/.llmd", &only_titles).is_empty());
}

#[test]
fn reserved_documents_are_named() {
    assert!(is_reserved_file("/p/.llmd", "/p/.llmd/catme.md"));
    assert!(is_reserved_file("/p/.llmd", "/p/.llmd/imported/AGENTS.md"));
    assert!(is_reserved_file("/p/.llmd", "/p/.llmd/issues/001-a.md"));
    assert!(is_reserved_file("/p/.llmd", "/p/.llmd/issues"));
    assert!(!is_reserved_file("/p/.llmd", "/p/.llmd/api.md"));
    assert!(!is_reserved_file("/p/.llmd", "/p/.llmd/imported2/x.md"));
    assert!(!is_reserved_file("/p/.llmd", "/p/.llmd/guides/catme.md"));
}

#[test]
fn resolve_sections_takes_each_position_once() {
    let index = build_section_index("/p/.llmd", &docs());
    let picked = resolve_sections_from_indices(&index, &vec![3, 1, 3, 1]).unwrap();
    assert_eq!(picked, vec![index[2].clone(), index[0].clone()]);
    assert_eq!(resolve_sections_from_indices(&index, &vec![]), Ok(vec![]));
}

#[test]
fn resolve_sections_reports_a_position_outside_the_index() {
    let index = build_section_index("/p/.llmd", &docs());
    assert_eq!(
        resolve_sections_from_indices(&index, &vec![1, 4, 0]),
        Err(SelectionError { index: 4, count: 3 })
    );
    assert_eq!(
        resolve_sections_from_indices(&index, &vec![0]),
        Err(SelectionError { index: 0, count: 3 })
    );
    assert_eq!(
        resolve_sections_from_indices(&vec![], &vec![1]),
        Err(SelectionError { index: 1, count: 0 })
    );
    assert_eq!(
        SelectionError { index: 4, count: 3 }.message(),
        "Section index 4 is out of range (1\u{2013}3). Run `llmd index` to see available sections."
    );
}

#[test]
fn extract_keywords_drops_short_words_and_duplicates() {
    assert_eq!(
        extract_keywords("Fix the API-design, api-design! and (Parser) bug in PARSER."),
        strings(&["api-design", "parser"])
    );
    assert_eq!(extract_keywords("a an the for"), Vec::<String>::new());
    assert_eq!(extract_keywords(""), Vec::<String>::new());
    assert_eq!(extract_keywords("zeta Alpha zeta, alpha beta"), strings(&["zeta", "alpha", "beta"]));
    assert_eq!(extract_keywords("\"auth\" --- ...test... abc! abcd"), strings(&["auth", "test", "abcd"]));
}

#[test]
fn select_by_keywords_keeps_index_order_and_each_label_once() {
    let index = vec![
        section("a > Auth Flow", "a.md", "Auth Flow"),
        section("a > Storage", "a.md", "Storage"),
        section("b > OAuth", "b.md", "OAuth"),
        section("a > Auth Flow", "a.md", "Auth Flow"),
        section("c > Parser", "c.md", "Parser"),
    ];
    let picked = select_by_keywords(&index, &strings(&["parser", "auth"]));
    assert_eq!(picked, vec![index[0].clone(), index[2].clone(), index[4].clone()]);
    assert!(select_by_keywords(&index, &vec![]).is_empty());
    assert!(select_by_keywords(&index, &strings(&["nothing"])).is_empty());
}

#[test]
fn auto_topics_unites_the_topics_of_the_labels() {
    let mapping = vec![
        ("backend".to_string(), strings(&["storage", "api"])),
        ("ui".to_string(), strings(&["design", "api"])),
        ("unused".to_string(), strings(&["zzz"])),
    ];
    assert_eq!(
        auto_topics(&strings(&["ui", "backend", "other"]), &mapping),
        strings(&["api", "design", "storage"])
    );
    assert_eq!(auto_topics(&strings(&["other"]), &mapping), Vec::<String>::new());
    assert_eq!(auto_topics(&vec![], &mapping), Vec::<String>::new());
}

#[test]
fn merge_topics_sorts_and_removes_duplicates() {
    assert_eq!(
        merge_topics(&strings(&["zeta", "api", "Beta"]), &strings(&["api", "alpha"])),
        strings(&["Beta", "alpha", "api", "zeta"])
    );
}

#[test]
fn extract_catme_excerpt_prefers_the_three_sections() {
    let catme = "# P\n## Project Summary\nsum\n## Technology Stack\nrust\n## Build & Test\nmake\n## Navigation\nnav\n";
    assert_eq!(
        extract_catme_excerpt(catme),
        "## Project Summary\nsum\n\n## Technology Stack\nrust\n\n## Build & Test\nmake\n"
    );
}

#[test]
fn extract_catme_excerpt_falls_back_to_the_summary() {
    let catme = "# P\n## Project Summary\nsum\n## Technology Stack\nrust\n## Navigation\nnav\n";
    assert_eq!(extract_catme_excerpt(catme), "## Project Summary\nsum\n");
    let catme = "# P\n## Project Summary\nsum\n";
    assert_eq!(extract_catme_excerpt(catme), "## Project Summary\nsum\n");
}

#[test]
fn extract_catme_excerpt_falls_back_to_the_first_forty_lines() {
    let mut catme = String::new();
    for i in 1..=50 {
        catme.push_str(&format!("line {i}\n"));
    }
    let mut expected = String::new();
    for i in 1..=40 {
        expected.push_str(&format!("line {i}\n"));
    }
    assert_eq!(extract_catme_excerpt(&catme), expected);
    assert_eq!(extract_catme_excerpt("a\nb"), "a\nb\n");
    assert_eq!(extract_catme_excerpt(""), "\n");
}

#[test]
fn task_header_names_the_task() {
    assert_eq!(task_header(""), "# Task Context\n\n");
    assert_eq!(task_header("Add login"), "# Task Context\n\n## Task\n\nAdd login\n\n");
}

#[test]
fn build_document_assembles_the_parts_in_order() {
    let index = build_section_index("/p/.llmd", &docs());
    let sections = vec![
        SectionSource { section: index[0].clone(), content: Some(API.to_string()) },
        SectionSource { section: index[1].clone(), content: Some(API.to_string()) },
        SectionSource { section: index[2].clone(), content: None },
    ];
    let topics = vec![TopicDocument { name: "auth".to_string(), content: "A".to_string() }];
    let doc = build_document("# Task Context\n\n", "EX\n", "/p/.llmd", &topics, &sections);
    assert_eq!(
        doc,
        "# Task Context\n\n## Project Overview\n\nEX\n\n## auth\n\nA\n\n## Relevant Sections\n\n### api\n\n## Design\ntext\n### Auth\n#### Deep\n\n### Auth\n#### Deep\n\n### guides/setup\n\n"
    );
}

#[test]
fn build_document_without_selections_has_no_sections_part() {
    let topics = vec![
        TopicDocument { name: "one".to_string(), content: "1\n".to_string() },
        TopicDocument { name: "two".to_string(), content: String::new() },
    ];
    let doc = build_document("H\n", "E", "/p/.llmd", &topics, &vec![]);
    assert_eq!(doc, "H\n## Project Overview\n\nE\n## one\n\n1\n\n## two\n\n\n\n");
}

#[test]
fn build_document_repeats_the_group_heading_when_the_document_changes_back() {
    let a = section("a > X", "/p/.llmd/a.md", "X");
    let b = section("b > Y", "/p/.llmd/b.md", "Y");
    let sections = vec![
        SectionSource { section: a.clone(), content: Some("## X\nx".to_string()) },
        SectionSource { section: b, content: Some("## Z\nz".to_string()) },
        SectionSource { section: a, content: Some("## X\nx\n".to_string()) },
    ];
    let doc = build_document("", "", "/p/.llmd", &vec![], &sections);
    assert_eq!(
        doc,
        "## Project Overview\n\n\n## Relevant Sections\n\n### a\n\n## X\nx\n\n### b\n\n### a\n\n## X\nx\n\n"
    );
}

const ISSUE: &str = "---\nid: 3\ntitle: \"Login form\"\nlabels:\n  - name: \"ui\"\n    color: \"blue\"\n  - name: backend\nassignee: null\n---\n\nMake it work.\n";

#[test]
fn extract_labels_from_frontmatter_reads_both_forms() {
    assert_eq!(extract_labels_from_frontmatter(ISSUE), strings(&["ui", "backend"]));
    assert_eq!(
        extract_labels_from_frontmatter("---\nlabels: [a, \"b\"]\ntitle: t\n---\n"),
        strings(&["a", "b"])
    );
    assert_eq!(extract_labels_from_frontmatter("labels: [a]"), Vec::<String>::new());
    assert_eq!(extract_labels_from_frontmatter("---\ntitle: t\n---\n"), Vec::<String>::new());
}

#[test]
fn extract_labels_and_title_reads_the_title() {
    let (labels, title) = extract_labels_and_title_from_frontmatter(ISSUE);
    assert_eq!(labels, strings(&["ui", "backend"]));
    assert_eq!(title, Some("Login form".to_string()));
    let (_, title) = extract_labels_and_title_from_frontmatter("---\ntitle: \"\"\n---\n");
    assert_eq!(title, None);
    let (_, title) = extract_labels_and_title_from_frontmatter("title: x");
    assert_eq!(title, None);
}

#[test]
fn extract_issue_body_reads_what_follows_the_frontmatter() {
    assert_eq!(extract_issue_body(ISSUE), Some("Make it work.".to_string()));
    assert_eq!(extract_issue_body("---\ntitle: t\n---"), None);
    assert_eq!(extract_issue_body("no marker"), None);
}

#[test]
fn parse_issue_frontmatter_builds_the_header() {
    let (labels, header) = parse_issue_frontmatter(ISSUE, "3");
    assert_eq!(labels, strings(&["ui", "backend"]));
    assert_eq!(
        header,
        "# Context: #3 Login form\n\n## Issue\n\n**#3** \u{b7} ui, backend\n\nMake it work.\n\n"
    );
    let (labels, header) = parse_issue_frontmatter("---\nstatus: open\n---\n", "x");
    assert!(labels.is_empty());
    assert_eq!(header, "# Context: #x Untitled\n\n## Issue\n\n**#x**\n\n\n\n");
}

fn compose_args() -> llmd::commands::compose::ComposeArgs {
    llmd::commands::compose::ComposeArgs {
        sections: vec![],
        task: None,
        issue: None,
        no_auto_include: false,
        topics: vec![],
        from: None,
        output: None,
    }
}

#[test]
fn selected_sections_takes_the_positions_of_the_arguments() {
    let index = build_section_index("/p/.llmd", &docs());
    let mut args = compose_args();
    args.sections = vec![2, 2, 1];
    assert_eq!(selected_sections(&index, &args), Ok(vec![index[1].clone(), index[0].clone()]));
    args.sections = vec![9];
    assert_eq!(selected_sections(&index, &args), Err(SelectionError { index: 9, count: 3 }));
    assert_eq!(
        SelectionError { index: 9, count: 3 }.message(),
        "Section index 9 is out of range (1\u{2013}3). Run `llmd index` to see available sections."
    );
}

#[test]
fn topics_to_take_adds_the_topics_of_an_issue_unless_told_not_to() {
    let auto = strings(&["api", "auth"]);
    let mut args = compose_args();
    args.topics = strings(&["zeta", "api", "zeta"]);
    assert_eq!(topics_to_take(&args, &auto), strings(&["zeta", "api", "zeta"]));
    args.issue = Some("3".to_string());
    assert_eq!(topics_to_take(&args, &auto), strings(&["api", "auth", "zeta"]));
    args.no_auto_include = true;
    assert_eq!(topics_to_take(&args, &auto), strings(&["zeta", "api", "zeta"]));
}
