use llmd::commands::issue::update::{
    add_id, add_label, append_comment, apply_update, parse_label_arg, UpdateArgs,
};
use llmd::issues::frontmatter::parse_issue;
use llmd::issues::models::Label;

fn no_change(id_or_slug: &str) -> UpdateArgs {
    UpdateArgs {
        id_or_slug: id_or_slug.to_string(),
        status: None,
        priority: None,
        assignee: None,
        milestone: None,
        points: None,
        due: None,
        add_dep: None,
        add_label: None,
        parent: None,
        add_comment: None,
        author: None,
    }
}

#[test]
fn appending_two_comments_gives_one_block_with_both_in_order() {
    let mut body = String::new();
    append_comment(&mut body, "ann", "2024-01-01", "first");
    assert_eq!(
        body,
        "## Comments\n\n```yaml\n- author: \"ann\"\n  date: \"2024-01-01\"\n  body: \"first\"\n```\n"
    );
    append_comment(&mut body, "bob", "2024-01-02", "second");
    assert_eq!(
        body,
        "## Comments\n\n```yaml\n- author: \"ann\"\n  date: \"2024-01-01\"\n  body: \"first\"\n- author: \"bob\"\n  date: \"2024-01-02\"\n  body: \"second\"\n```\n"
    );
    assert_eq!(body.matches("```yaml").count(), 1);
}

#[test]
fn append_comment_keeps_the_text_before_the_section() {
    let mut body = "Describe the bug.".to_string();
    append_comment(&mut body, "a", "d", "t");
    assert_eq!(
        body,
        "Describe the bug.\n\n## Comments\n\n```yaml\n- author: \"a\"\n  date: \"d\"\n  body: \"t\"\n```\n"
    );
    let mut blank = "  \n".to_string();
    append_comment(&mut blank, "a", "d", "t");
    assert!(blank.starts_with("  \n## Comments\n\n```yaml\n"));
}

#[test]
fn append_comment_escapes_quotes() {
    let mut body = String::new();
    append_comment(&mut body, "o\"n", "d", "say \"hi\" \\");
    assert!(body.contains("- author: \"o\\\"n\"\n"));
    assert!(body.contains("  body: \"say \\\"hi\\\" \\\\\"\n"));
}

#[test]
fn append_comment_goes_before_the_last_fence_without_a_yaml_block() {
    let mut body = "## Comments\n\n```\nold\n```\n".to_string();
    append_comment(&mut body, "a", "d", "t");
    assert_eq!(
        body,
        "## Comments\n\n```\nold\n- author: \"a\"\n  date: \"d\"\n  body: \"t\"\n```\n"
    );
    let mut bare = "## Comments\n".to_string();
    append_comment(&mut bare, "a", "d", "t");
    assert_eq!(bare, "## Comments\n- author: \"a\"\n  date: \"d\"\n  body: \"t\"\n");
}

#[test]
fn parse_label_arg_splits_name_and_color() {
    assert_eq!(parse_label_arg("bug"), Label { name: "bug".to_string(), color: None });
    assert_eq!(
        parse_label_arg("bug:red"),
        Label { name: "bug".to_string(), color: Some("red".to_string()) }
    );
    assert_eq!(
        parse_label_arg("a:b:c"),
        Label { name: "a".to_string(), color: Some("b:c".to_string()) }
    );
}

#[test]
fn add_label_adds_a_name_once() {
    let mut labels = vec![Label { name: "bug".to_string(), color: None }];
    add_label(&mut labels, "bug:red");
    assert_eq!(labels.len(), 1);
    assert_eq!(labels[0].color, None);
    add_label(&mut labels, "ui:blue");
    assert_eq!(labels.len(), 2);
    assert_eq!(labels[1], Label { name: "ui".to_string(), color: Some("blue".to_string()) });
}

#[test]
fn add_id_keeps_the_list_sorted_and_without_repeats() {
    let mut ids = vec![5, 1, 3];
    add_id(&mut ids, 3);
    assert_eq!(ids, vec![5, 1, 3]);
    add_id(&mut ids, 2);
    assert_eq!(ids, vec![1, 2, 3, 5]);
    let mut none: Vec<u32> = vec![];
    add_id(&mut none, 9);
    assert_eq!(none, vec![9]);
}

#[test]
fn apply_update_replaces_fields_and_refreshes_updated_at() {
    let mut issue = parse_issue(
        "---\ntitle: T\nstatus: open\ndependencies: [4]\ncreated_at: then\nupdated_at: then\n---\nbody",
        2,
    )
    .unwrap();
    let mut args = no_change("2");
    args.status = Some("closed".to_string());
    args.priority = Some("high".to_string());
    args.assignee = Some("ann".to_string());
    args.milestone = Some("v2".to_string());
    args.points = Some(8);
    args.due = Some("soon".to_string());
    args.add_dep = Some(1);
    args.add_label = Some("bug:red".to_string());
    args.parent = Some(7);
    args.add_comment = Some("done".to_string());
    apply_update(&mut issue, &args, "ann", "today", "now");
    assert_eq!(issue.status, "closed");
    assert_eq!(issue.priority, "high");
    assert_eq!(issue.assignee, Some("ann".to_string()));
    assert_eq!(issue.milestone, Some("v2".to_string()));
    assert_eq!(issue.points, Some(8));
    assert_eq!(issue.due, Some("soon".to_string()));
    assert_eq!(issue.dependencies, vec![1, 4]);
    assert_eq!(issue.labels, vec![Label { name: "bug".to_string(), color: Some("red".to_string()) }]);
    assert_eq!(issue.parent, Some(7));
    assert_eq!(
        issue.body,
        "body\n\n## Comments\n\n```yaml\n- author: \"ann\"\n  date: \"today\"\n  body: \"done\"\n```\n"
    );
    assert_eq!(issue.updated_at, "now");
    assert_eq!(issue.created_at, "then");
    assert_eq!(issue.title, "T");
    assert_eq!(issue.id, 2);
}

#[test]
fn apply_update_without_arguments_only_refreshes_updated_at() {
    let before = parse_issue("---\ntitle: T\nupdated_at: then\n---\nbody", 2).unwrap();
    let mut issue = before.clone();
    apply_update(&mut issue, &no_change("2"), "x", "y", "now");
    assert_eq!(issue.updated_at, "now");
    issue.updated_at = before.updated_at.clone();
    assert_eq!(issue, before);
}

#[test]
fn many_comments_in_sequence_stand_in_one_block_in_order() {
    for start in ["", "Body text.", "  ", "a\n\n# Heading\n"] {
        let mut body = start.to_string();
        let mut records = String::new();
        for i in 1..=6 {
            let (author, date, text) = (format!("u{i}"), format!("d{i}"), format!("it's `{i}` ``"));
            append_comment(&mut body, &author, &date, &text);
            records.push_str(&format!(
                "- author: \"{author}\"\n  date: \"{date}\"\n  body: \"{text}\"\n"
            ));
            let gap = if start.trim().is_empty() { "" } else { "\n\n" };
            assert_eq!(body, format!("{start}{gap}## Comments\n\n```yaml\n{records}```\n"));
        }
        assert_eq!(body.matches("## Comments").count(), 1);
        assert_eq!(body.matches("```").count(), 2);
    }
}

#[test]
fn a_comment_with_a_fence_after_a_newline_moves_the_next_one() {
    let mut body = String::new();
    append_comment(&mut body, "a", "d", "x\n```\ny");
    append_comment(&mut body, "b", "d", "z");
    assert!(body.contains("body: \"x\n- author: \"b\""));
}
