//! Data structures of the issue tracker, and what each stands for in
//! contracts.

use vstd::prelude::*;

verus! {

/// The persisted counter of the tracker: the id that the next record gets.
#[derive(Debug, Clone)]
pub struct Config {
    pub next_id: u32,
}

impl Default for Config {
    fn default() -> (r: Self)
        ensures
            r.next_id == 1,
    {
        Config { next_id: 1 }
    }
}

/// A label on an issue.
#[derive(Debug, Clone, PartialEq, Eq)]
pub struct Label {
    pub name: String,
    pub color: Option<String>,
}

/// A comment on an issue.
#[derive(Debug, Clone)]
pub struct Comment {
    pub author: String,
    pub date: String,
    pub body: String,
}

/// An issue: the fields of its frontmatter, and its body.
#[derive(Debug, Clone, PartialEq, Eq)]
pub struct Issue {
    pub id: u32,
    pub title: String,
    pub slug: String,
    pub issue_type: String,
    pub status: String,
    pub priority: String,
    pub labels: Vec<Label>,
    pub assignee: Option<String>,
    pub milestone: Option<String>,
    pub parent: Option<u32>,
    pub dependencies: Vec<u32>,
    pub epic_children: Vec<u32>,
    pub points: Option<u32>,
    pub due: Option<String>,
    pub created_at: String,
    pub updated_at: String,
    pub body: String,
}

/// The text of an optional string.
pub open spec fn opt_text(s: Option<String>) -> Option<Seq<char>> {
    match s {
        Some(t) => Some(t@),
        None => None,
    }
}

/// What a label stands for.
pub struct LabelModel {
    pub name: Seq<char>,
    pub color: Option<Seq<char>>,
}

/// What an issue stands for.
pub struct IssueModel {
    pub id: u32,
    pub title: Seq<char>,
    pub slug: Seq<char>,
    pub issue_type: Seq<char>,
    pub status: Seq<char>,
    pub priority: Seq<char>,
    pub labels: Seq<LabelModel>,
    pub assignee: Option<Seq<char>>,
    pub milestone: Option<Seq<char>>,
    pub parent: Option<u32>,
    pub dependencies: Seq<u32>,
    pub epic_children: Seq<u32>,
    pub points: Option<u32>,
    pub due: Option<Seq<char>>,
    pub created_at: Seq<char>,
    pub updated_at: Seq<char>,
    pub body: Seq<char>,
}

/// What a comment stands for.
pub struct CommentModel {
    pub author: Seq<char>,
    pub date: Seq<char>,
    pub body: Seq<char>,
}

impl View for Label {
    type V = LabelModel;

    open spec fn view(&self) -> LabelModel {
        LabelModel { name: self.name@, color: opt_text(self.color) }
    }
}

impl View for Comment {
    type V = CommentModel;

    open spec fn view(&self) -> CommentModel {
        CommentModel { author: self.author@, date: self.date@, body: self.body@ }
    }
}

/// What a list of labels stands for.
pub open spec fn label_views(v: Seq<Label>) -> Seq<LabelModel> {
    v.map_values(|l: Label| l@)
}

impl View for Issue {
    type V = IssueModel;

    open spec fn view(&self) -> IssueModel {
        IssueModel {
            id: self.id,
            title: self.title@,
            slug: self.slug@,
            issue_type: self.issue_type@,
            status: self.status@,
            priority: self.priority@,
            labels: label_views(self.labels@),
            assignee: opt_text(self.assignee),
            milestone: opt_text(self.milestone),
            parent: self.parent,
            dependencies: self.dependencies@,
            epic_children: self.epic_children@,
            points: self.points,
            due: opt_text(self.due),
            created_at: self.created_at@,
            updated_at: self.updated_at@,
            body: self.body@,
        }
    }
}

/// What a store of issues stands for: each key with the model of its record.
pub open spec fn store_view(m: Map<u32, Issue>) -> Map<u32, IssueModel> {
    Map::new(|k: u32| m.contains_key(k), |k: u32| m[k]@)
}

/// Every record of the store stands under its own id.
pub open spec fn store_wf(m: Map<u32, Issue>) -> bool {
    forall|k: u32| m.contains_key(k) ==> (#[trigger] m[k]).id == k
}

impl Config {
    /// Mints the next id: returns the id that the counter holds and moves the
    /// counter on by one.
    pub fn mint(&mut self) -> (id: u32)
        requires
            old(self).next_id < u32::MAX,
        ensures
            id == old(self).next_id,
            final(self).next_id == id + 1,
    {
        let id = self.next_id;
        self.next_id = id + 1;
        id
    }
}

} // verus!
