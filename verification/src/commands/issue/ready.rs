//! Listing the ready issues, with the filters of that list.

use std::collections::HashMap;
use vstd::prelude::*;
use crate::commands::issue::list::{passes, passes_filter, passes_opt, passes_opt_filter};
use crate::issues::graph::{is_ready, lists_ready, ready_tasks};
use crate::issues::models::Issue;

verus! {

/// Arguments of the command that lists the ready issues.
#[derive(Debug, Clone)]
pub struct ReadyArgs {
    pub json: bool,
    pub type_filter: Option<String>,
    pub milestone: Option<String>,
    pub assignee: Option<String>,
}

/// The issue passes every filter of the list of ready issues.
pub open spec fn shown(i: Issue, a: ReadyArgs) -> bool {
    &&& passes(i.issue_type@, a.type_filter)
    &&& passes_opt(i.milestone, a.milestone)
    &&& passes_opt(i.assignee, a.assignee)
}

/// The items that pass the filters, in their order.
pub open spec fn shown_of(items: Seq<&Issue>, a: ReadyArgs) -> Seq<&Issue>
    decreases items.len(),
{
    if items.len() == 0 {
        Seq::empty()
    } else if shown(*items.last(), a) {
        shown_of(items.drop_last(), a).push(items.last())
    } else {
        shown_of(items.drop_last(), a)
    }
}

/// Of the ready issues, in their order, those that pass the filters.
pub fn filter_ready<'a>(ready: &Vec<&'a Issue>, args: &ReadyArgs) -> (r: Vec<&'a Issue>)
    ensures
        r@ == shown_of(ready@, *args),
{
    let mut r: Vec<&'a Issue> = Vec::new();
    let mut i: usize = 0;
    assert(ready@.take(0) =~= Seq::<&Issue>::empty());
    while i < ready.len()
        invariant
            i <= ready.len(),
            r@ == shown_of(ready@.take(i as int), *args),
        decreases ready.len() - i,
    {
        let ghost next = ready@.take(i + 1);
        assert(next.drop_last() =~= ready@.take(i as int));
        assert(next.last() == ready@[i as int]);
        let issue = ready[i];
        if passes_filter(&issue.issue_type, &args.type_filter) && passes_opt_filter(
            &issue.milestone,
            &args.milestone,
        ) && passes_opt_filter(&issue.assignee, &args.assignee) {
            r.push(issue);
        }
        i += 1;
    }
    assert(ready@.take(ready.len() as int) =~= ready@);
    r
}

/// The ready issues that are no epics and pass the filters, in the order of
/// the ready issues: by priority rank, then by id.
pub fn ready_issues<'a>(issues: &'a HashMap<u32, Issue>, args: &ReadyArgs) -> (r: Vec<&'a Issue>)
    ensures
        exists|keys: Seq<u32>, ready: Seq<&Issue>|
            lists_ready(issues@, true, keys, ready) && r@ == shown_of(ready, *args),
        forall|i: int|
            0 <= i < r@.len() ==> shown(*#[trigger] r@[i], *args) && is_ready(
                issues@,
                *r@[i],
                true,
            ),
{
    let ready = ready_tasks(issues, true);
    let r = filter_ready(&ready, args);
    proof {
        lemma_shown_of(ready@, *args);
        assert forall|i: int| 0 <= i < r@.len() implies shown(*#[trigger] r@[i], *args)
            && is_ready(issues@, *r@[i], true) by {
            assert(ready@.contains(r@[i]));
            let p = choose|p: int| 0 <= p < ready@.len() && ready@[p] == r@[i];
            assert(is_ready(issues@, *ready@[p], true));
        }
    }
    r
}

/// What passes the filters is among the items and passes the filters.
pub proof fn lemma_shown_of(items: Seq<&Issue>, a: ReadyArgs)
    ensures
        forall|i: int|
            0 <= i < shown_of(items, a).len() ==> shown(*#[trigger] shown_of(items, a)[i], a)
                && items.contains(shown_of(items, a)[i]),
    decreases items.len(),
{
    if items.len() > 0 {
        let init = items.drop_last();
        lemma_shown_of(init, a);
        let s = shown_of(items, a);
        assert forall|i: int| 0 <= i < s.len() implies shown(*#[trigger] s[i], a)
            && items.contains(s[i]) by {
            if i < shown_of(init, a).len() {
                assert(s[i] == shown_of(init, a)[i]);
                assert(init.contains(s[i]));
                let p = choose|p: int| 0 <= p < init.len() && init[p] == s[i];
                assert(items[p] == s[i]);
            } else {
                assert(items[items.len() - 1] == s[i]);
            }
        }
    }
}

} // verus!
