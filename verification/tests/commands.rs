use llmd::commands::compose::IndexedSection;
use llmd::commands::index::print_section_index;
use llmd::commands::init::{flatten_name, generate_catme};
use llmd::commands::issue::list::{list_issues, list_line, ready_line, ListArgs};
use llmd::commands::issue::mentions::find_mention;
use llmd::commands::issue::new::{add_child_to_epic, new_issue, NewArgs};
use llmd::commands::issue::ready::{ready_issues, ReadyArgs};
use llmd::commands::issue::tree::{tree_line, tree_lines};
use llmd::commands::roadmap::generate_roadmap_page;
use llmd::issues::frontmatter::parse_issue;
use llmd::issues::graph::epic_tree;
use llmd::issues::models::{Issue, Label};
use std::collections::HashMap;
use llmd::commands::issue::mentions::{mention_for, MentionsArgs};
use llmd::commands::issue::tree::{issue_tree, TreeArgs};

fn parsed(id: u32, fields: &str) -> Issue {
    parse_issue(&format!("---\n{fields}\n---\n"), id).unwrap()
}

fn store(issues: Vec<Issue>) -> HashMap<u32, Issue> {
    let mut m = HashMap::new();
    for i in issues {
        m.insert(i.id, i);
    }
    m
}

fn ids(v: &[&Issue]) -> Vec<u32> {
    v.iter().map(|i| i.id).collect()
}

fn no_filter() -> ListArgs {
    ListArgs { json: false, status: None, type_filter: None, milestone: None, assignee: None, epic: None }
}

#[test]
fn new_issue_fills_the_record() {
    let args = NewArgs {
        title: "Add Login Form".to_string(),
        issue_type: "task".to_string(),
        priority: "high".to_string(),
        labels: vec!["ui:blue".to_string(), "auth".to_string()],
        assignee: Some("ann".to_string()),
        parent: Some(2),
        milestone: None,
        points: Some(3),
        due: None,
        dep: vec![5, 1],
    };
    let issue = new_issue(&args, 9, "2024-01-01T00:00:00.000Z");
    assert_eq!(
        issue,
        Issue {
            id: 9,
            title: "Add Login Form".to_string(),
            slug: "add-login-form".to_string(),
            issue_type: "task".to_string(),
            status: "open".to_string(),
            priority: "high".to_string(),
            labels: vec![
                Label { name: "ui".to_string(), color: Some("blue".to_string()) },
                Label { name: "auth".to_string(), color: None },
            ],
            assignee: Some("ann".to_string()),
            milestone: None,
            parent: Some(2),
            dependencies: vec![5, 1],
            epic_children: vec![],
            points: Some(3),
            due: None,
            created_at: "2024-01-01T00:00:00.000Z".to_string(),
            updated_at: "2024-01-01T00:00:00.000Z".to_string(),
            body: String::new(),
        }
    );
}

#[test]
fn add_child_to_epic_enters_the_child_once() {
    let mut epic = parsed(2, "title: Epic\ntype: epic\nepic_children: [7, 3]\nupdated_at: then");
    assert!(add_child_to_epic(&mut epic, 5, "now"));
    assert_eq!(epic.epic_children, vec![3, 5, 7]);
    assert_eq!(epic.updated_at, "now");
    assert!(!add_child_to_epic(&mut epic, 5, "later"));
    assert_eq!(epic.epic_children, vec![3, 5, 7]);
    assert_eq!(epic.updated_at, "now");
}

#[test]
fn list_issues_orders_by_id_and_applies_the_filters() {
    let m = store(vec![
        parsed(3, "title: C\nstatus: open\nassignee: ann\nparent: 1"),
        parsed(1, "title: A\ntype: epic\nstatus: open\nmilestone: v1"),
        parsed(2, "title: B\nstatus: closed\nassignee: bob\nparent: 1\nmilestone: v1"),
        parsed(4, "title: D\nstatus: open\nassignee: ann\nmilestone: v2"),
    ]);
    assert_eq!(ids(&list_issues(&m, &no_filter())), vec![1, 2, 3, 4]);
    let mut a = no_filter();
    a.status = Some("open".to_string());
    assert_eq!(ids(&list_issues(&m, &a)), vec![1, 3, 4]);
    a.assignee = Some("ann".to_string());
    assert_eq!(ids(&list_issues(&m, &a)), vec![3, 4]);
    a.epic = Some(1);
    assert_eq!(ids(&list_issues(&m, &a)), vec![3]);
    let mut b = no_filter();
    b.milestone = Some("v1".to_string());
    assert_eq!(ids(&list_issues(&m, &b)), vec![1, 2]);
    b.type_filter = Some("epic".to_string());
    assert_eq!(ids(&list_issues(&m, &b)), vec![1]);
    b.type_filter = Some("bug".to_string());
    assert!(list_issues(&m, &b).is_empty());
}

#[test]
fn list_line_and_ready_line_show_the_issue() {
    let i = parsed(7, "title: Fix it\ntype: bug\nstatus: open\nassignee: ann\nlabels: [a, b]");
    assert_eq!(list_line(&i), "#7 Fix it [bug] open \u{b7} ann \u{b7} a, b");
    assert_eq!(ready_line(&i), "#7 Fix it [bug] \u{b7} ann");
    let j = parsed(8, "title: Plain");
    assert_eq!(list_line(&j), "#8 Plain [task] open \u{b7} \u{2014} \u{b7} ");
    assert_eq!(ready_line(&j), "#8 Plain [task] \u{b7} \u{2014}");
}

#[test]
fn ready_issues_applies_the_filters_to_the_ready_tasks() {
    let m = store(vec![
        parsed(1, "title: A\nstatus: closed"),
        parsed(2, "title: B\ntype: bug\nassignee: ann\ndependencies: [1]"),
        parsed(3, "title: C\ntype: epic"),
        parsed(4, "title: D\npriority: high\nmilestone: v1"),
        parsed(5, "title: E\ndependencies: [4]"),
    ]);
    let all = ReadyArgs { json: false, type_filter: None, milestone: None, assignee: None };
    assert_eq!(ids(&ready_issues(&m, &all)), vec![4, 2]);
    let bugs = ReadyArgs { json: false, type_filter: Some("bug".to_string()), milestone: None, assignee: None };
    assert_eq!(ids(&ready_issues(&m, &bugs)), vec![2]);
    let v1 = ReadyArgs { json: false, type_filter: None, milestone: Some("v1".to_string()), assignee: None };
    assert_eq!(ids(&ready_issues(&m, &v1)), vec![4]);
    let bob = ReadyArgs { json: false, type_filter: None, milestone: None, assignee: Some("bob".to_string()) };
    assert!(ready_issues(&m, &bob).is_empty());
}

#[test]
fn tree_lines_indent_by_depth_and_skip_missing_records() {
    let m = store(vec![
        parsed(1, "title: Epic\ntype: epic\nepic_children: [2, 9, 3]"),
        parsed(2, "title: Child\nassignee: ann\nepic_children: [4]"),
        parsed(3, "title: Other\nstatus: closed"),
        parsed(4, "title: Deep"),
    ]);
    let tree = epic_tree(&m, 1);
    assert_eq!(
        tree_lines(&m, &tree),
        vec![
            "#1 Epic [epic] open",
            "  #2 Child [task] open \u{c2}\u{b7} ann",
            "  #3 Other [task] closed",
            "    #4 Deep [task] open",
        ]
    );
    assert_eq!(tree_line(&m[&4], 0), "#4 Deep [task] open");
}

#[test]
fn print_section_index_numbers_the_entries_from_one() {
    let index = vec![
        IndexedSection { label: "api > Design".to_string(), file: "a".to_string(), heading: "Design".to_string() },
        IndexedSection { label: "api > Auth".to_string(), file: "a".to_string(), heading: "Auth".to_string() },
    ];
    assert_eq!(print_section_index(&index), vec!["[1] api > Design", "[2] api > Auth"]);
    assert!(print_section_index(&vec![]).is_empty());
}

#[test]
fn flatten_name_joins_the_components() {
    assert_eq!(
        flatten_name("/p/.github/copilot-instructions.md", "/p"),
        "github-copilot-instructions.md"
    );
    assert_eq!(flatten_name("/p/AGENTS.md", "/p"), "AGENTS.md");
    assert_eq!(flatten_name("/p/.cursor/rules/a.mdc", "/p/"), "cursor-rules-a.mdc");
    assert_eq!(flatten_name("/p/.cursorrules", "/p"), "cursorrules");
    assert_eq!(flatten_name("/q/x.md", "/p"), "/-q-x.md");
    assert_eq!(flatten_name("a/../b", ""), "a-b");
}

#[test]
fn generate_catme_lists_the_imported_files() {
    let bare = generate_catme("proj", &vec![]);
    assert!(bare.starts_with("# proj\n\n> **Agent entry point.** Read this file first"));
    assert!(bare.contains("## Project Summary\n\n"));
    assert!(bare.contains("## Technology Stack\n\n"));
    assert!(bare.contains("## Build & Test\n\n"));
    assert!(bare.contains("## Navigation\n\nTopic documentation lives in `.llmd/`. Start here, then follow links.\n\n## Rules of Engagement\n\n"));
    assert!(!bare.contains("### Imported"));
    assert!(bare.ends_with("- `src/api/` \u{2192} [api-standards.md](api-standards.md)\n-->\n"));
    let full = generate_catme(
        "proj",
        &vec![
            ("AGENTS.md".to_string(), "AGENTS.md \u{2014} cross-tool agent instructions".to_string()),
            ("cursorrules".to_string(), "rules".to_string()),
        ],
    );
    assert!(full.contains(
        "### Imported Agent Config Files\n\nThese files were discovered in your project and imported automatically:\n\n- [imported/AGENTS.md](imported/AGENTS.md) \u{2014} AGENTS.md \u{2014} cross-tool agent instructions\n- [imported/cursorrules](imported/cursorrules) \u{2014} rules\n\n## Rules of Engagement\n\n"
    ));
    assert_eq!(full.len(), bare.len() + full.find("## Rules").unwrap() - bare.find("## Rules").unwrap());
}

const WITH_COMMENTS: &str = "body\n\n## Comments\n\n```yaml\n- author: \"ann\"\n  date: \"2024\"\n  body: \"hi @bob\"\n- author: \"bob\" date: \"2025\" body: \"thanks @ann!\"\n```\n";

#[test]
fn find_mention_reports_the_first_matching_comment_line() {
    assert_eq!(
        find_mention(WITH_COMMENTS, "003-fix", &Some("bob".to_string())),
        Some("#003 003-fix \u{2014} ? (?): hi".to_string())
    );
    assert_eq!(
        find_mention(WITH_COMMENTS, "003-fix", &Some("ann".to_string())),
        Some("#003 003-fix \u{2014} bob (2025): thanks".to_string())
    );
    assert_eq!(
        find_mention(WITH_COMMENTS, "003-fix", &None),
        Some("#003 003-fix \u{2014} ? (?): hi".to_string())
    );
    assert_eq!(find_mention(WITH_COMMENTS, "003-fix", &Some("carol".to_string())), None);
    assert_eq!(find_mention("no comments @bob", "1-x", &None), None);
}

#[test]
fn find_mention_falls_back_to_any_mention_for_a_bad_handle() {
    assert_eq!(
        find_mention(WITH_COMMENTS, "003-fix", &Some("(".to_string())),
        Some("#003 003-fix \u{2014} ? (?): hi".to_string())
    );
}

#[test]
fn mention_for_and_issue_tree_take_their_arguments() {
    let args = MentionsArgs { handle: Some("ann".to_string()) };
    assert_eq!(
        mention_for(WITH_COMMENTS, "003-fix", &args),
        Some("#003 003-fix \u{2014} bob (2025): thanks".to_string())
    );
    let m = store(vec![parsed(1, "title: Epic\nepic_children: [2]"), parsed(2, "title: Child")]);
    assert_eq!(
        issue_tree(&m, &TreeArgs { id: 1 }),
        vec!["#1 Epic [task] open", "  #2 Child [task] open"]
    );
}

#[test]
fn generate_roadmap_page_groups_by_milestone_and_counts_the_closed() {
    let m = store(vec![
        parsed(1, "title: Big\ntype: epic\nmilestone: v1\nepic_children: [3, 9, 2]\npoints: 8\ndue: 2024-06-01"),
        parsed(2, "title: Part\nstatus: closed\nmilestone: v1\nassignee: ann"),
        parsed(3, "title: Other part\ntype: bug\nmilestone: v2"),
        parsed(4, "title: Loose\npriority: high"),
        parsed(5, "title: Bare epic\ntype: epic"),
    ]);
    assert_eq!(
        generate_roadmap_page(&m, "2024-05-01T10:00:00.000Z"),
        "# Roadmap\n\nGenerated from .llmd/issues/ \u{2014} 2024-05-01\n\n\
         ## No milestone\n\n\
         ### Epics\n\n- **[#5 Bare epic](005-bare-epic.md)** `epic` \n\n\
         ### Open Issues\n\n| # | Title | Type | Priority | Assignee |\n|---|-------|------|----------|----------|\n\
         | 4 | Loose | task | high | \u{2014} |\n\n\
         ## v1\n\n\
         ### Epics\n\n- **[#1 Big](001-big.md)** `epic` 8pts \u{b7} 2024-06-01\n\
         \x20 - [#3 Other part](003-other-part.md) `bug` \u{b7} open \u{b7} \u{2014}\n\
         \x20 - [#2 Part](002-part.md) `task` \u{b7} closed \u{b7} ann\n\n\
         ### Open Issues\n\n| # | Title | Type | Priority | Assignee |\n|---|-------|------|----------|----------|\n\
         | 2 | Part | task | medium | ann |\n\n\
         ## v2\n\n\
         ### Open Issues\n\n| # | Title | Type | Priority | Assignee |\n|---|-------|------|----------|----------|\n\
         | 3 | Other part | bug | medium | \u{2014} |\n\n\
         ### Progress\n\n1/5 closed (20%)\n\n\u{2588}\u{2588}\u{2591}\u{2591}\u{2591}\u{2591}\u{2591}\u{2591}\u{2591}\u{2591}"
    );
}

#[test]
fn generate_roadmap_page_of_an_empty_store_has_only_the_progress() {
    let m: HashMap<u32, Issue> = HashMap::new();
    assert_eq!(
        generate_roadmap_page(&m, "now"),
        "# Roadmap\n\nGenerated from .llmd/issues/ \u{2014} now\n\n### Progress\n\n0/0 closed (0%)\n\n\u{2591}\u{2591}\u{2591}\u{2591}\u{2591}\u{2591}\u{2591}\u{2591}\u{2591}\u{2591}"
    );
}
