use llmd::issues::frontmatter::{
    parse_array_field, parse_frontmatter_map, parse_issue, parse_labels, serialize_issue, slugify,
};
use llmd::issues::models::{Config, Issue, Label};

fn chars(s: &str) -> Vec<char> {
    s.chars().collect()
}

fn text(v: Option<Vec<char>>) -> Option<String> {
    v.map(|c| c.into_iter().collect())
}

fn sample() -> Issue {
    Issue {
        id: 7,
        title: "Fix the parser".to_string(),
        slug: "fix-the-parser".to_string(),
        issue_type: "bug".to_string(),
        status: "open".to_string(),
        priority: "high".to_string(),
        labels: vec![
            Label { name: "backend".to_string(), color: Some("red".to_string()) },
            Label { name: "urgent".to_string(), color: None },
        ],
        assignee: Some("ann".to_string()),
        milestone: Some("v1".to_string()),
        parent: Some(3),
        dependencies: vec![1, 2],
        epic_children: vec![8, 9],
        points: Some(5),
        due: Some("2024-05-01".to_string()),
        created_at: "2024-01-01T00:00:00.000Z".to_string(),
        updated_at: "2024-01-02T00:00:00.000Z".to_string(),
        body: "Body text.\n\nMore.".to_string(),
    }
}

const SAMPLE_TEXT: &str = "---\nid: 7\ntitle: \"Fix the parser\"\nslug: \"fix-the-parser\"\ntype: bug\nstatus: open\npriority: high\nlabels:\n  - name: \"backend\"\n    color: \"red\"\n  - name: \"urgent\"\nassignee: \"ann\"\nmilestone: \"v1\"\nparent: 3\ndependencies: [1, 2]\nepic_children: [8, 9]\npoints: 5\ndue: \"2024-05-01\"\ncreated_at: \"2024-01-01T00:00:00.000Z\"\nupdated_at: \"2024-01-02T00:00:00.000Z\"\n---\n\nBody text.\n\nMore.\n";

#[test]
fn serialize_issue_writes_the_fields_in_their_fixed_order() {
    assert_eq!(serialize_issue(&sample()), SAMPLE_TEXT);
}

#[test]
fn parse_issue_reads_every_field() {
    assert_eq!(parse_issue(SAMPLE_TEXT, 7), Some(sample()));
}

#[test]
fn parsing_a_serialized_issue_gives_the_issue_back() {
    let issue = sample();
    assert_eq!(parse_issue(&serialize_issue(&issue), issue.id), Some(issue));
}

#[test]
fn a_bare_issue_round_trips_with_absent_fields() {
    let issue = Issue {
        id: 12,
        title: "Plain".to_string(),
        slug: "plain".to_string(),
        issue_type: "task".to_string(),
        status: "closed".to_string(),
        priority: "low".to_string(),
        labels: vec![],
        assignee: None,
        milestone: None,
        parent: None,
        dependencies: vec![],
        epic_children: vec![],
        points: None,
        due: None,
        created_at: "2024-03-03T03:03:03.000Z".to_string(),
        updated_at: "2024-03-04T03:03:03.000Z".to_string(),
        body: String::new(),
    };
    let text = serialize_issue(&issue);
    assert_eq!(
        text,
        "---\nid: 12\ntitle: \"Plain\"\nslug: \"plain\"\ntype: task\nstatus: closed\npriority: low\nlabels: []\nassignee: null\nparent: null\ndependencies: []\ncreated_at: \"2024-03-03T03:03:03.000Z\"\nupdated_at: \"2024-03-04T03:03:03.000Z\"\n---\n\n"
    );
    assert_eq!(parse_issue(&text, 12), Some(issue));
}

#[test]
fn serialize_issue_escapes_quotes_and_backslashes() {
    let mut issue = sample();
    issue.title = "say \"hi\" \\ bye".to_string();
    issue.labels = vec![Label { name: "a\"b".to_string(), color: None }];
    issue.assignee = Some("o\"neil".to_string());
    let text = serialize_issue(&issue);
    assert!(text.contains("title: \"say \\\"hi\\\" \\\\ bye\"\n"));
    assert!(text.contains("  - name: \"a\\\"b\"\n"));
    assert!(text.contains("assignee: \"o\\\"neil\"\n"));
}

#[test]
fn serialize_issue_keeps_a_final_newline_of_the_body() {
    let mut issue = sample();
    issue.body = "ends here\n".to_string();
    assert!(serialize_issue(&issue).ends_with("---\n\nends here\n"));
}

#[test]
fn parse_issue_needs_a_frontmatter() {
    assert_eq!(parse_issue("no frontmatter here", 1), None);
    assert_eq!(parse_issue("---\ntitle: x\n", 1), None);
    assert_eq!(parse_issue("", 1), None);
    assert_eq!(parse_issue(" ---\ntitle: x\n---\n", 1), None);
}

#[test]
fn parse_issue_fills_in_the_defaults() {
    let issue = parse_issue("---\ntitle: Hello, World!\n---\n\n  the body  \n\n", 4).unwrap();
    assert_eq!(issue.id, 4);
    assert_eq!(issue.title, "Hello, World!");
    assert_eq!(issue.slug, "hello-world");
    assert_eq!(issue.issue_type, "task");
    assert_eq!(issue.status, "open");
    assert_eq!(issue.priority, "medium");
    assert!(issue.labels.is_empty());
    assert_eq!(issue.assignee, None);
    assert_eq!(issue.milestone, None);
    assert_eq!(issue.parent, None);
    assert!(issue.dependencies.is_empty());
    assert!(issue.epic_children.is_empty());
    assert_eq!(issue.points, None);
    assert_eq!(issue.due, None);
    assert_eq!(issue.created_at, "");
    assert_eq!(issue.updated_at, "");
    assert_eq!(issue.body, "the body");
}

#[test]
fn parse_issue_without_a_title_is_untitled() {
    let issue = parse_issue("---\nstatus: closed\ncreated_at: 2024\n---\n", 1).unwrap();
    assert_eq!(issue.title, "Untitled");
    assert_eq!(issue.slug, "untitled");
    assert_eq!(issue.status, "closed");
    assert_eq!(issue.created_at, "2024");
    assert_eq!(issue.updated_at, "2024");
    assert_eq!(issue.body, "");
}

#[test]
fn parse_issue_treats_null_and_empty_as_absent() {
    let issue = parse_issue(
        "---\ntitle: t\nassignee: null\nmilestone: \"\"\nparent: null\npoints: many\ndue: ''\n---\n",
        1,
    )
    .unwrap();
    assert_eq!(issue.assignee, None);
    assert_eq!(issue.milestone, None);
    assert_eq!(issue.parent, None);
    assert_eq!(issue.points, None);
    assert_eq!(issue.due, None);
}

#[test]
fn parse_issue_ignores_unknown_fields_and_takes_the_last_value() {
    let issue =
        parse_issue("---\ntitle: first\ncolour: blue\ntitle: second\n_x: 1\n---\nb", 1).unwrap();
    assert_eq!(issue.title, "second");
    assert_eq!(issue.body, "b");
}

#[test]
fn parse_frontmatter_map_strips_quotes_and_joins_continuations() {
    let map = parse_frontmatter_map(&chars(
        "title: \"Quoted\"\nnote: 'single'\n\nlong: first\n  second part\n   third\nempty:\n  ignored\nlist:\n- item\nplain : spaced key \n",
    ));
    assert_eq!(text(map.get("title")), Some("Quoted".to_string()));
    assert_eq!(text(map.get("note")), Some("single".to_string()));
    assert_eq!(text(map.get("long")), Some("first second part third".to_string()));
    assert_eq!(text(map.get("empty")), Some(String::new()));
    assert_eq!(text(map.get("list")), Some(String::new()));
    assert_eq!(text(map.get("plain")), Some("spaced key".to_string()));
    assert_eq!(text(map.get("missing")), None);
}

#[test]
fn parse_frontmatter_map_takes_keys_that_begin_with_any_letter() {
    let map = parse_frontmatter_map(&chars("\u{e9}tat: ouvert\n9lives: no\n"));
    assert_eq!(text(map.get("\u{e9}tat")), Some("ouvert".to_string()));
    assert_eq!(text(map.get("9lives")), None);
}

#[test]
fn parse_labels_reads_a_flow_list() {
    let labels = parse_labels(&chars("title: t\nlabels: [bug, \"ui\", 'x y', , ]\nstatus: open"));
    assert_eq!(
        labels,
        vec![
            Label { name: "bug".to_string(), color: None },
            Label { name: "ui".to_string(), color: None },
            Label { name: "x y".to_string(), color: None },
        ]
    );
}

#[test]
fn parse_labels_reads_a_block_list_with_colors() {
    let labels = parse_labels(&chars(
        "labels:\n  - name: \"backend\"\n    color: \"#ff0000\"\n  - name: plain\n  -  name: 'wide'\n    color: blue\n  - other: x\nassignee: bob\n  - name: \"late\"\n",
    ));
    assert_eq!(
        labels,
        vec![
            Label { name: "backend".to_string(), color: Some("#ff0000".to_string()) },
            Label { name: "plain".to_string(), color: None },
            Label { name: "wide".to_string(), color: Some("blue".to_string()) },
        ]
    );
}

#[test]
fn parse_labels_of_an_empty_list_is_empty() {
    assert!(parse_labels(&chars("labels: []\nassignee: null")).is_empty());
    assert!(parse_labels(&chars("title: none")).is_empty());
    assert!(parse_labels(&chars("")).is_empty());
}

#[test]
fn parse_array_field_skips_malformed_entries() {
    let fm = chars("dependencies: [1, x, 3, -2, +4, 4294967295, 4294967296, , 007]\nepic_children: [ 5 ,6]");
    assert_eq!(parse_array_field(&fm, "dependencies"), vec![1, 3, 4, 4294967295, 7]);
    assert_eq!(parse_array_field(&fm, "epic_children"), vec![5, 6]);
    assert_eq!(parse_array_field(&fm, "points"), Vec::<u32>::new());
}

#[test]
fn parse_array_field_reads_the_first_matching_line_only() {
    let fm = chars("  dependencies: 1, 2\ndependencies: [3]\n");
    assert_eq!(parse_array_field(&fm, "dependencies"), Vec::<u32>::new());
    let fm = chars("dependencies: [3]\ndependencies: [4]\n");
    assert_eq!(parse_array_field(&fm, "dependencies"), vec![3]);
}

#[test]
fn slugify_collapses_runs_into_single_hyphens() {
    assert_eq!(slugify("Hello, World!"), "hello-world");
    assert_eq!(slugify("  Fix   the_API -- now  "), "fix-the_api----now");
    assert_eq!(slugify("!!!"), "");
    assert_eq!(slugify(""), "");
    assert_eq!(slugify("Cr\u{e8}me Br\u{fb}l\u{e9}e 2"), "cr\u{e8}me-br\u{fb}l\u{e9}e-2");
}

#[test]
fn the_counter_starts_at_one_and_moves_by_one() {
    let mut config = Config::default();
    assert_eq!(config.next_id, 1);
    assert_eq!(config.mint(), 1);
    assert_eq!(config.mint(), 2);
    assert_eq!(config.next_id, 3);
}

#[test]
fn labels_with_colons_and_inner_quotes_round_trip() {
    let mut issue = sample();
    issue.slug = "a\\b\"c".to_string();
    issue.due = Some("1 \"of\" 2\\".to_string());
    issue.created_at = "at: \"noon\"\\x".to_string();
    issue.labels = vec![
        Label { name: "type:bug".to_string(), color: Some("#ff:00".to_string()) },
        Label { name: "name".to_string(), color: Some("re\"d".to_string()) },
        Label { name: "a:b:c".to_string(), color: Some(String::new()) },
        Label { name: "x'y".to_string(), color: Some("color".to_string()) },
        Label { name: "last".to_string(), color: None },
    ];
    assert_eq!(parse_issue(&serialize_issue(&issue), issue.id), Some(issue));
}

#[test]
fn a_label_that_holds_the_key_of_its_line_does_not_round_trip() {
    let mut issue = sample();
    issue.labels = vec![Label { name: "xname:y".to_string(), color: None }];
    let back = parse_issue(&serialize_issue(&issue), issue.id).unwrap();
    assert_eq!(back.labels, vec![Label { name: "x".to_string(), color: None }]);
    issue.labels = vec![Label { name: "ok".to_string(), color: Some("acolor:b".to_string()) }];
    let back = parse_issue(&serialize_issue(&issue), issue.id).unwrap();
    assert_eq!(back.labels, vec![Label { name: "ok".to_string(), color: Some("a".to_string()) }]);
}

#[test]
fn an_escaped_title_does_not_round_trip() {
    let mut issue = sample();
    issue.title = "say \"hi\"".to_string();
    let back = parse_issue(&serialize_issue(&issue), issue.id).unwrap();
    assert_eq!(back.title, "say \\\"hi\\");
}
