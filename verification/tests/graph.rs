use llmd::issues::graph::{epic_tree, has_cycle, ready_tasks};
use llmd::issues::models::Issue;
use std::collections::HashMap;

fn issue(id: u32, status: &str, deps: &[u32]) -> Issue {
    Issue {
        id,
        title: format!("Issue {id}"),
        slug: format!("issue-{id}"),
        issue_type: "task".to_string(),
        status: status.to_string(),
        priority: "medium".to_string(),
        labels: vec![],
        assignee: None,
        milestone: None,
        parent: None,
        dependencies: deps.to_vec(),
        epic_children: vec![],
        points: None,
        due: None,
        created_at: "2024-01-01T00:00:00.000Z".to_string(),
        updated_at: "2024-01-01T00:00:00.000Z".to_string(),
        body: String::new(),
    }
}

fn store(issues: Vec<Issue>) -> HashMap<u32, Issue> {
    let mut m = HashMap::new();
    for i in issues {
        m.insert(i.id, i);
    }
    m
}

fn ids(v: &[&Issue]) -> Vec<u32> {
    v.iter().map(|i| i.id).collect()
}

#[test]
fn ready_tasks_returns_only_the_issue_whose_dependencies_are_closed() {
    let m = store(vec![issue(1, "closed", &[]), issue(2, "open", &[1]), issue(3, "open", &[1, 4])]);
    assert_eq!(ids(&ready_tasks(&m, true)), vec![2]);
    assert_eq!(ids(&ready_tasks(&m, false)), vec![2]);
}

#[test]
fn ready_tasks_orders_by_priority_then_id() {
    let mut a = issue(5, "open", &[]);
    a.priority = "low".to_string();
    let mut b = issue(4, "open", &[]);
    b.priority = "high".to_string();
    let mut c = issue(3, "open", &[]);
    c.priority = "medium".to_string();
    let mut d = issue(2, "in-progress", &[]);
    d.priority = "whatever".to_string();
    let mut e = issue(1, "open", &[]);
    e.priority = "high".to_string();
    let mut f = issue(6, "open", &[]);
    f.priority = "low".to_string();
    let m = store(vec![a, b, c, d, e, f]);
    assert_eq!(ids(&ready_tasks(&m, true)), vec![1, 4, 2, 3, 5, 6]);
}

#[test]
fn ready_tasks_leaves_out_epics_only_when_asked() {
    let mut epic = issue(1, "open", &[]);
    epic.issue_type = "epic".to_string();
    let m = store(vec![epic, issue(2, "open", &[])]);
    assert_eq!(ids(&ready_tasks(&m, true)), vec![2]);
    assert_eq!(ids(&ready_tasks(&m, false)), vec![1, 2]);
}

#[test]
fn ready_tasks_never_returns_closed_or_blocked_issues() {
    let m = store(vec![
        issue(1, "closed", &[]),
        issue(2, "open", &[3]),
        issue(3, "open", &[]),
        issue(4, "closed", &[9]),
        issue(5, "open", &[1, 1]),
    ]);
    let ready = ready_tasks(&m, true);
    assert_eq!(ids(&ready), vec![3, 5]);
    for i in ready {
        assert_ne!(i.status, "closed");
    }
}

#[test]
fn ready_tasks_of_an_empty_store_is_empty() {
    let m: HashMap<u32, Issue> = HashMap::new();
    assert!(ready_tasks(&m, true).is_empty());
}

#[test]
fn has_cycle_finds_a_dependency_cycle() {
    let m = store(vec![issue(1, "open", &[2]), issue(2, "open", &[3]), issue(3, "open", &[1])]);
    assert!(has_cycle(&m));
}

#[test]
fn has_cycle_finds_a_self_dependency() {
    let m = store(vec![issue(1, "open", &[1])]);
    assert!(has_cycle(&m));
}

#[test]
fn has_cycle_follows_parent_edges() {
    let mut a = issue(1, "open", &[]);
    a.parent = Some(2);
    let b = issue(2, "open", &[1]);
    let m = store(vec![a, b]);
    assert!(has_cycle(&m));
}

#[test]
fn has_cycle_is_false_for_a_dag_with_shared_and_dangling_targets() {
    let mut d = issue(4, "open", &[2, 3]);
    d.parent = Some(1);
    let m = store(vec![issue(1, "open", &[]), issue(2, "open", &[1]), issue(3, "open", &[1, 99]), d]);
    assert!(!has_cycle(&m));
    let empty: HashMap<u32, Issue> = HashMap::new();
    assert!(!has_cycle(&empty));
}

#[test]
fn epic_tree_lists_breadth_first_with_depths() {
    let mut root = issue(1, "open", &[]);
    root.epic_children = vec![2, 3];
    let mut two = issue(2, "open", &[]);
    two.epic_children = vec![4];
    let mut three = issue(3, "open", &[]);
    three.epic_children = vec![5, 6];
    let m = store(vec![root, two, three, issue(4, "open", &[]), issue(5, "open", &[]), issue(6, "open", &[])]);
    assert_eq!(epic_tree(&m, 1), vec![(1, 0), (2, 1), (3, 1), (4, 2), (5, 2), (6, 2)]);
    assert_eq!(epic_tree(&m, 3), vec![(3, 0), (5, 1), (6, 1)]);
}

#[test]
fn epic_tree_lists_an_id_without_a_record_as_a_leaf() {
    let mut root = issue(1, "open", &[]);
    root.epic_children = vec![7, 2];
    let m = store(vec![root, issue(2, "open", &[])]);
    assert_eq!(epic_tree(&m, 1), vec![(1, 0), (7, 1), (2, 1)]);
    assert_eq!(epic_tree(&m, 42), vec![(42, 0)]);
}

#[test]
fn epic_tree_ignores_dependencies_and_parents() {
    let mut root = issue(1, "open", &[2]);
    root.parent = Some(3);
    let m = store(vec![root, issue(2, "open", &[]), issue(3, "open", &[])]);
    assert_eq!(epic_tree(&m, 1), vec![(1, 0)]);
}

#[test]
fn epic_tree_of_a_cyclic_hierarchy_ends() {
    let mut a = issue(1, "open", &[]);
    a.epic_children = vec![2];
    let mut b = issue(2, "open", &[]);
    b.epic_children = vec![1];
    let m = store(vec![a, b]);
    assert_eq!(epic_tree(&m, 1), vec![(1, 0), (2, 1), (1, 2)]);
}

#[test]
fn epic_tree_repeats_an_id_that_two_parents_list() {
    let mut root = issue(1, "open", &[]);
    root.epic_children = vec![2, 3];
    let mut three = issue(3, "open", &[]);
    three.epic_children = vec![2];
    let m = store(vec![root, issue(2, "open", &[]), three]);
    assert_eq!(epic_tree(&m, 1), vec![(1, 0), (2, 1), (3, 1), (2, 2)]);
}

#[test]
fn has_cycle_ignores_the_lists_of_children() {
    let mut a = issue(1, "open", &[]);
    a.epic_children = vec![2];
    let mut b = issue(2, "open", &[]);
    b.epic_children = vec![1];
    let m = store(vec![a, b]);
    assert!(!has_cycle(&m));
}

#[test]
fn has_cycle_finds_a_cycle_behind_an_acyclic_part() {
    let m = store(vec![
        issue(1, "open", &[2, 3]),
        issue(2, "open", &[4]),
        issue(3, "open", &[4]),
        issue(4, "open", &[5]),
        issue(5, "open", &[6]),
        issue(6, "open", &[4]),
    ]);
    assert!(has_cycle(&m));
}

#[test]
fn epic_tree_of_a_tree_lists_each_id_once_with_rising_depths() {
    let mut root = issue(10, "open", &[]);
    root.epic_children = vec![7, 3, 9];
    let mut seven = issue(7, "open", &[]);
    seven.epic_children = vec![1, 2];
    let mut nine = issue(9, "open", &[]);
    nine.epic_children = vec![8, 4];
    let mut two = issue(2, "open", &[]);
    two.epic_children = vec![5];
    let m = store(vec![root, seven, nine, two, issue(1, "open", &[]), issue(8, "open", &[])]);
    let tree = epic_tree(&m, 10);
    assert_eq!(
        tree,
        vec![(10, 0), (7, 1), (3, 1), (9, 1), (1, 2), (2, 2), (8, 2), (4, 2), (5, 3)]
    );
    let mut seen: Vec<u32> = tree.iter().map(|e| e.0).collect();
    seen.sort();
    seen.dedup();
    assert_eq!(seen.len(), tree.len());
    assert!(tree.windows(2).all(|w| w[0].1 <= w[1].1));
}
