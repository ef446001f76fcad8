//! Printing the hierarchy under an epic.

use std::collections::HashMap;
use vstd::prelude::*;
use crate::issues::graph::{epic_tree, epic_walk, tree_view};
use crate::issues::models::Issue;
use crate::llmd_dir::texts;
use crate::number::{decimal, decimal_of};
use crate::text::{push_all, push_str, string_of};

verus! {

broadcast use vstd::std_specs::hash::group_hash_axioms;

/// Arguments of the command that prints the hierarchy under an epic.
#[derive(Debug, Clone, Copy)]
pub struct TreeArgs {
    pub id: u32,
}

/// Two spaces for each level of depth.
pub open spec fn indentation(depth: nat) -> Seq<char>
    decreases depth,
{
    if depth == 0 {
        Seq::empty()
    } else {
        indentation((depth - 1) as nat) + "  "@
    }
}

/// What a tree line says of the assignee: nothing where there is none or it
/// is empty.
pub open spec fn assignee_note(i: Issue) -> Seq<char> {
    match i.assignee {
        Some(a) => if a@.len() == 0 {
            Seq::empty()
        } else {
            " \u{c2}\u{b7} "@ + a@
        },
        None => Seq::empty(),
    }
}

/// The line of an issue in the tree, indented by its depth.
pub open spec fn tree_line_text(i: Issue, depth: nat) -> Seq<char> {
    indentation(depth) + seq!['#'] + decimal(i.id as nat) + seq![' '] + i.title@ + " ["@
        + i.issue_type@ + "] "@ + i.status@ + assignee_note(i)
}

/// The lines of a listing of the hierarchy: one for each entry whose id has
/// a record, in order.
pub open spec fn tree_lines_text(m: Map<u32, Issue>, tree: Seq<(u32, usize)>) -> Seq<Seq<char>>
    decreases tree.len(),
{
    if tree.len() == 0 {
        Seq::empty()
    } else if m.contains_key(tree.last().0) {
        tree_lines_text(m, tree.drop_last()).push(
            tree_line_text(m[tree.last().0], tree.last().1 as nat),
        )
    } else {
        tree_lines_text(m, tree.drop_last())
    }
}

/// The line of an issue in the tree.
pub fn tree_line(issue: &Issue, depth: usize) -> (r: String)
    ensures
        r@ == tree_line_text(*issue, depth as nat),
{
    let mut out: Vec<char> = Vec::new();
    let mut d: usize = 0;
    assert(out@ =~= indentation(0));
    while d < depth
        invariant
            d <= depth,
            out@ == indentation(d as nat),
        decreases depth - d,
    {
        push_str(&mut out, "  ");
        d += 1;
    }
    out.push('#');
    push_all(&mut out, &decimal_of(issue.id as u64));
    out.push(' ');
    push_str(&mut out, issue.title.as_str());
    push_str(&mut out, " [");
    push_str(&mut out, issue.issue_type.as_str());
    push_str(&mut out, "] ");
    push_str(&mut out, issue.status.as_str());
    let ghost head = out@;
    match &issue.assignee {
        Some(a) => {
            let c = crate::text::chars_of(a.as_str());
            if c.len() > 0 {
                push_str(&mut out, " \u{c2}\u{b7} ");
                push_all(&mut out, &c);
            } else {
                assert(out@ =~= head + Seq::<char>::empty());
            }
        },
        None => {
            assert(out@ =~= head + Seq::<char>::empty());
        },
    }
    assert(out@ =~= tree_line_text(*issue, depth as nat));
    string_of(&out)
}

/// The lines that print a listing of the hierarchy: one for each entry whose
/// id has a record, indented by its depth; an id without a record has no line.
pub fn tree_lines(issues: &HashMap<u32, Issue>, tree: &Vec<(u32, usize)>) -> (r: Vec<String>)
    ensures
        texts(r@) == tree_lines_text(issues@, tree@),
{
    let mut r: Vec<String> = Vec::new();
    let mut i: usize = 0;
    assert(tree@.take(0) =~= Seq::<(u32, usize)>::empty());
    assert(texts(r@) =~= Seq::<Seq<char>>::empty());
    while i < tree.len()
        invariant
            i <= tree.len(),
            texts(r@) == tree_lines_text(issues@, tree@.take(i as int)),
        decreases tree.len() - i,
    {
        let ghost next = tree@.take(i + 1);
        assert(next.drop_last() =~= tree@.take(i as int));
        assert(next.last() == tree@[i as int]);
        let id = tree[i].0;
        let depth = tree[i].1;
        match issues.get(&id) {
            Some(issue) => {
                let ghost prev = r@;
                let line = tree_line(issue, depth);
                r.push(line);
                assert(texts(r@) =~= texts(prev).push(tree_line_text(*issue, depth as nat)));
            },
            None => {},
        }
        i += 1;
    }
    assert(tree@.take(tree.len() as int) =~= tree@);
    r
}

/// The lines that print the hierarchy under the epic of the arguments.
pub fn issue_tree(issues: &HashMap<u32, Issue>, args: &TreeArgs) -> (r: Vec<String>)
    ensures
        exists|tree: Seq<(u32, usize)>|
            tree_view(tree) == epic_walk(issues@, args.id) && texts(r@) == tree_lines_text(
                issues@,
                tree,
            ),
{
    let tree = epic_tree(issues, args.id);
    tree_lines(issues, &tree)
}

} // verus!
