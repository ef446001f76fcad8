//! Listing issues: the filters of the list, and the line of one issue.

use std::collections::HashMap;
use vstd::prelude::*;
use crate::issues::graph::{keys_of, lists_keys, records_in_order};
use crate::issues::models::Issue;
use crate::number::{decimal, decimal_of};
use crate::text::{chars_of, join, push_all, push_str, same, string_of};

verus! {

broadcast use vstd::std_specs::hash::group_hash_axioms;

/// Arguments of the command that lists issues.
#[derive(Debug, Clone)]
pub struct ListArgs {
    pub json: bool,
    pub status: Option<String>,
    pub type_filter: Option<String>,
    pub milestone: Option<String>,
    pub assignee: Option<String>,
    pub epic: Option<u32>,
}

/// The filter lets the value pass: there is no filter, or the value is the
/// one that it asks for.
pub open spec fn passes(value: Seq<char>, wanted: Option<String>) -> bool {
    wanted is None || value == wanted->0@
}

/// The filter lets the optional value pass: there is no filter, or the
/// value is there and is the one that it asks for.
pub open spec fn passes_opt(value: Option<String>, wanted: Option<String>) -> bool {
    wanted is None || (value is Some && value->0@ == wanted->0@)
}

/// The issue passes every filter of the list.
pub open spec fn listed(i: Issue, a: ListArgs) -> bool {
    &&& (a.epic is Some ==> i.parent == a.epic)
    &&& passes(i.status@, a.status)
    &&& passes(i.issue_type@, a.type_filter)
    &&& passes_opt(i.milestone, a.milestone)
    &&& passes_opt(i.assignee, a.assignee)
}

/// Whether the filter lets the value pass.
pub fn passes_filter(value: &String, wanted: &Option<String>) -> (r: bool)
    ensures
        r == passes(value@, *wanted),
{
    match wanted {
        Some(w) => same(&chars_of(value.as_str()), &chars_of(w.as_str())),
        None => true,
    }
}

/// Whether the filter lets the optional value pass.
pub fn passes_opt_filter(value: &Option<String>, wanted: &Option<String>) -> (r: bool)
    ensures
        r == passes_opt(*value, *wanted),
{
    match wanted {
        Some(w) => match value {
            Some(v) => same(&chars_of(v.as_str()), &chars_of(w.as_str())),
            None => false,
        },
        None => true,
    }
}

/// Whether the issue passes every filter of the list.
pub fn is_listed(issue: &Issue, args: &ListArgs) -> (r: bool)
    ensures
        r == listed(*issue, *args),
{
    let by_epic = match args.epic {
        Some(e) => match issue.parent {
            Some(p) => p == e,
            None => false,
        },
        None => true,
    };
    by_epic && passes_filter(&issue.status, &args.status) && passes_filter(
        &issue.issue_type,
        &args.type_filter,
    ) && passes_opt_filter(&issue.milestone, &args.milestone) && passes_opt_filter(
        &issue.assignee,
        &args.assignee,
    )
}

/// The issues of the store that pass the filters of the list, ordered by id.
pub fn list_issues<'a>(issues: &'a HashMap<u32, Issue>, args: &ListArgs) -> (r: Vec<&'a Issue>)
    ensures
        exists|keys: Seq<u32>|
            lists_keys(issues@, false, keys, r@) && forall|k: u32|
                (issues@.contains_key(k) && listed(issues@[k], *args)) <==> #[trigger] keys.contains(
                    k,
                ),
        forall|i: int| 0 <= i < r@.len() ==> listed(*#[trigger] r@[i], *args),
        forall|i: int, j: int| 0 <= i < j < r@.len() ==> (#[trigger] r@[i]).id <= (#[trigger] r@[j]).id,
{
    let ks = keys_of(issues);
    let mut sel: Vec<u32> = Vec::new();
    let mut i: usize = 0;
    while i < ks.len()
        invariant
            i <= ks.len(),
            ks@.no_duplicates(),
            ks@.to_set() == issues@.dom(),
            sel@.no_duplicates(),
            forall|k: u32|
                #[trigger] sel@.contains(k) <==> (exists|j: int|
                    0 <= j < i && ks@[j] == k && listed(issues@[k], *args)),
        decreases ks.len() - i,
    {
        let k = ks[i];
        assert(ks@.to_set().contains(k));
        let ghost before = sel@;
        match issues.get(&k) {
            Some(issue) => {
                if is_listed(issue, args) {
                    assert(!before.contains(k)) by {
                        if before.contains(k) {
                            let j = choose|j: int| 0 <= j < i && ks@[j] == k;
                            assert(ks@[j] == ks@[i as int]);
                        }
                    }
                    sel.push(k);
                    assert forall|x: u32| #[trigger] sel@.contains(x) <==> (exists|j: int|
                        0 <= j < i + 1 && ks@[j] == x && listed(issues@[x], *args)) by {
                        if sel@.contains(x) {
                            let p = choose|p: int| 0 <= p < sel@.len() && sel@[p] == x;
                            if p < before.len() {
                                assert(before[p] == x);
                                assert(before.contains(x));
                            } else {
                                assert(ks@[i as int] == x);
                            }
                        }
                        if exists|j: int|
                            0 <= j < i + 1 && ks@[j] == x && listed(issues@[x], *args) {
                            let j = choose|j: int|
                                0 <= j < i + 1 && ks@[j] == x && listed(issues@[x], *args);
                            if j < i {
                                assert(before.contains(x));
                                let p = choose|p: int| 0 <= p < before.len() && before[p] == x;
                                assert(sel@[p] == x);
                            } else {
                                assert(sel@[before.len() as int] == x);
                            }
                        }
                    }
                } else {
                    assert forall|x: u32| #[trigger] sel@.contains(x) <==> (exists|j: int|
                        0 <= j < i + 1 && ks@[j] == x && listed(issues@[x], *args)) by {
                        if exists|j: int|
                            0 <= j < i + 1 && ks@[j] == x && listed(issues@[x], *args) {
                            let j = choose|j: int|
                                0 <= j < i + 1 && ks@[j] == x && listed(issues@[x], *args);
                            assert(j < i);
                        }
                    }
                }
            },
            None => {},
        }
        i += 1;
    }
    assert forall|x: int| 0 <= x < sel@.len() implies issues@.contains_key(#[trigger] sel@[x]) by {
        assert(sel@.contains(sel@[x]));
        let j = choose|j: int| 0 <= j < i && ks@[j] == sel@[x];
        assert(ks@.to_set().contains(ks@[j]));
    }
    let res = records_in_order(issues, &sel, false);
    let r = res.0;
    proof {
        let keys = res.1@;
        assert forall|k: u32|
            (issues@.contains_key(k) && listed(issues@[k], *args)) <==> #[trigger] keys.contains(
                k,
            ) by {
            if issues@.contains_key(k) && listed(issues@[k], *args) {
                assert(ks@.to_set().contains(k));
                let j = choose|j: int| 0 <= j < ks@.len() && ks@[j] == k;
                assert(0 <= j < i && ks@[j] == k);
                assert(sel@.contains(k));
            }
            if keys.contains(k) {
                assert(sel@.contains(k));
                let j = choose|j: int| 0 <= j < i && ks@[j] == k && listed(issues@[k], *args);
                assert(ks@.to_set().contains(ks@[j]));
            }
        }
        assert forall|x: int| 0 <= x < r@.len() implies listed(*#[trigger] r@[x], *args) by {
            assert(keys.contains(keys[x]));
        }
        assert forall|a: int, b: int| 0 <= a < b < r@.len() implies (#[trigger] r@[a]).id <= (
        #[trigger] r@[b]).id by {
            assert(crate::issues::graph::in_order_by(false, *r@[a], *r@[b]));
        }
    }
    r
}

/// The names of the labels of an issue, joined by `, `.
pub open spec fn label_names_text(i: Issue) -> Seq<char> {
    join(i.labels@.map_values(|l: crate::issues::models::Label| l.name@), ", "@)
}

/// The assignee of an issue, or a dash where it has none.
pub open spec fn assignee_or_dash(i: Issue) -> Seq<char> {
    match i.assignee {
        Some(a) => a@,
        None => "\u{2014}"@,
    }
}

/// The line of an issue in the list: id, title, type, status, assignee and labels.
pub open spec fn list_line_text(i: Issue) -> Seq<char> {
    seq!['#'] + decimal(i.id as nat) + seq![' '] + i.title@ + " ["@ + i.issue_type@ + "] "@
        + i.status@ + " \u{b7} "@ + assignee_or_dash(i) + " \u{b7} "@ + label_names_text(i)
}

/// The line of an issue among the ready ones: id, title, type and assignee.
pub open spec fn ready_line_text(i: Issue) -> Seq<char> {
    seq!['#'] + decimal(i.id as nat) + seq![' '] + i.title@ + " ["@ + i.issue_type@ + "] \u{b7} "@
        + assignee_or_dash(i)
}

/// Appends the assignee of an issue, or a dash.
pub(crate) fn push_assignee(out: &mut Vec<char>, issue: &Issue)
    ensures
        final(out)@ == old(out)@ + assignee_or_dash(*issue),
{
    match &issue.assignee {
        Some(a) => push_str(out, a.as_str()),
        None => push_str(out, "\u{2014}"),
    }
}

/// The line of an issue in the list.
pub fn list_line(issue: &Issue) -> (r: String)
    ensures
        r@ == list_line_text(*issue),
{
    let mut out: Vec<char> = Vec::new();
    out.push('#');
    push_all(&mut out, &decimal_of(issue.id as u64));
    out.push(' ');
    push_str(&mut out, issue.title.as_str());
    push_str(&mut out, " [");
    push_str(&mut out, issue.issue_type.as_str());
    push_str(&mut out, "] ");
    push_str(&mut out, issue.status.as_str());
    push_str(&mut out, " \u{b7} ");
    push_assignee(&mut out, issue);
    push_str(&mut out, " \u{b7} ");
    let ghost names = issue.labels@.map_values(|l: crate::issues::models::Label| l.name@);
    let mut labels: Vec<char> = Vec::new();
    let mut i: usize = 0;
    assert(names.take(0) =~= Seq::<Seq<char>>::empty());
    while i < issue.labels.len()
        invariant
            i <= issue.labels.len(),
            names == issue.labels@.map_values(|l: crate::issues::models::Label| l.name@),
            labels@ == join(names.take(i as int), ", "@),
        decreases issue.labels.len() - i,
    {
        let ghost next = names.take(i + 1);
        assert(next.drop_last() =~= names.take(i as int));
        assert(next.last() == issue.labels@[i as int].name@);
        if i > 0 {
            push_str(&mut labels, ", ");
        } else {
            assert(labels@ =~= Seq::<char>::empty());
        }
        push_str(&mut labels, issue.labels[i].name.as_str());
        assert(labels@ =~= join(next, ", "@));
        i += 1;
    }
    assert(names.take(issue.labels.len() as int) =~= names);
    push_all(&mut out, &labels);
    assert(out@ =~= list_line_text(*issue));
    string_of(&out)
}

/// The line of an issue among the ready ones.
pub fn ready_line(issue: &Issue) -> (r: String)
    ensures
        r@ == ready_line_text(*issue),
{
    let mut out: Vec<char> = Vec::new();
    out.push('#');
    push_all(&mut out, &decimal_of(issue.id as u64));
    out.push(' ');
    push_str(&mut out, issue.title.as_str());
    push_str(&mut out, " [");
    push_str(&mut out, issue.issue_type.as_str());
    push_str(&mut out, "] \u{b7} ");
    push_assignee(&mut out, issue);
    assert(out@ =~= ready_line_text(*issue));
    string_of(&out)
}

} // verus!
