//! Creating an issue, and entering it in the list of its parent's children.

use vstd::prelude::*;
use crate::commands::issue::update::{add_id, copy_string, label_of_arg, parse_label_arg};
use crate::issues::frontmatter::{slug_of, slugify};
use crate::issues::models::{label_views, opt_text, Issue, Label, LabelModel};
use crate::llmd_dir::texts;
use crate::number::{ascending, holds_number};
use crate::text::{chars_of, string_of};

verus! {

/// Arguments of the command that creates an issue.
#[derive(Debug, Clone)]
pub struct NewArgs {
    pub title: String,
    pub issue_type: String,
    pub priority: String,
    pub labels: Vec<String>,
    pub assignee: Option<String>,
    pub parent: Option<u32>,
    pub milestone: Option<String>,
    pub points: Option<u32>,
    pub due: Option<String>,
    pub dep: Vec<u32>,
}

/// The labels that a list of arguments `name` or `name:color` names.
pub open spec fn labels_of_args(args: Seq<Seq<char>>) -> Seq<LabelModel> {
    args.map_values(|a: Seq<char>| label_of_arg(a))
}

/// A copy of an optional string.
fn copy_opt(s: &Option<String>) -> (r: Option<String>)
    ensures
        opt_text(r) == opt_text(*s),
{
    match s {
        Some(x) => Some(copy_string(x)),
        None => None,
    }
}

/// The issue that the arguments describe, under the id that was minted for
/// it: open, with the slug of its title, without children and without a
/// body, created and updated at `now`.
pub fn new_issue(args: &NewArgs, id: u32, now: &str) -> (r: Issue)
    ensures
        r.id == id,
        r.title@ == args.title@,
        r.slug@ == slug_of(args.title@),
        r.issue_type@ == args.issue_type@,
        r.status@ == "open"@,
        r.priority@ == args.priority@,
        label_views(r.labels@) == labels_of_args(texts(args.labels@)),
        opt_text(r.assignee) == opt_text(args.assignee),
        opt_text(r.milestone) == opt_text(args.milestone),
        r.parent == args.parent,
        r.dependencies@ == args.dep@,
        r.epic_children@ == Seq::<u32>::empty(),
        r.points == args.points,
        opt_text(r.due) == opt_text(args.due),
        r.created_at@ == now@,
        r.updated_at@ == now@,
        r.body@ == Seq::<char>::empty(),
{
    let mut labels: Vec<Label> = Vec::new();
    let mut i: usize = 0;
    let ghost all = labels_of_args(texts(args.labels@));
    assert(label_views(labels@) =~= all.take(0));
    while i < args.labels.len()
        invariant
            i <= args.labels.len(),
            all == labels_of_args(texts(args.labels@)),
            label_views(labels@) == all.take(i as int),
        decreases args.labels.len() - i,
    {
        let ghost prev = labels@;
        let label = parse_label_arg(args.labels[i].as_str());
        let ghost model = label@;
        labels.push(label);
        assert(label_views(labels@) =~= label_views(prev).push(model));
        assert(texts(args.labels@)[i as int] == args.labels@[i as int]@);
        assert(all.take(i + 1) =~= all.take(i as int).push(model));
        i += 1;
    }
    assert(all.take(args.labels.len() as int) =~= all);
    let mut deps: Vec<u32> = Vec::new();
    let mut j: usize = 0;
    while j < args.dep.len()
        invariant
            j <= args.dep.len(),
            deps@ == args.dep@.take(j as int),
        decreases args.dep.len() - j,
    {
        deps.push(args.dep[j]);
        j += 1;
        assert(deps@ =~= args.dep@.take(j as int));
    }
    assert(args.dep@.take(args.dep.len() as int) =~= args.dep@);
    Issue {
        id,
        title: copy_string(&args.title),
        slug: slugify(args.title.as_str()),
        issue_type: copy_string(&args.issue_type),
        status: string_of(&chars_of("open")),
        priority: copy_string(&args.priority),
        labels,
        assignee: copy_opt(&args.assignee),
        milestone: copy_opt(&args.milestone),
        parent: args.parent,
        dependencies: deps,
        epic_children: Vec::new(),
        points: args.points,
        due: copy_opt(&args.due),
        created_at: string_of(&chars_of(now)),
        updated_at: string_of(&chars_of(now)),
        body: String::new(),
    }
}

/// Enters a new issue in the list of its parent's children, unless it is
/// there: the list is then put in ascending order and the parent counts as
/// updated at `now`. Returns whether the parent changed and has to be written.
pub fn add_child_to_epic(epic: &mut Issue, child_id: u32, now: &str) -> (changed: bool)
    ensures
        changed == !old(epic).epic_children@.contains(child_id),
        !changed ==> *final(epic) == *old(epic),
        changed ==> ascending(final(epic).epic_children@) && final(epic).epic_children@.to_multiset()
            == old(epic).epic_children@.push(child_id).to_multiset() && final(epic).updated_at@
            == now@,
        final(epic)@ == (crate::issues::models::IssueModel {
            epic_children: final(epic).epic_children@,
            updated_at: final(epic).updated_at@,
            ..old(epic)@
        }),
{
    if holds_number(&epic.epic_children, child_id) {
        false
    } else {
        add_id(&mut epic.epic_children, child_id);
        epic.updated_at = string_of(&chars_of(now));
        true
    }
}

} // verus!
