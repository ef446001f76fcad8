//! The roadmap page of the book: the issues grouped by milestone, and how
//! many of them are closed.

use std::collections::HashMap;
use vstd::prelude::*;
use crate::commands::issue::list::{assignee_or_dash, push_assignee};
use crate::issues::graph::{is_closed, is_epic, keys_of, lists_keys, records_in_order, text_is};
use crate::issues::models::Issue;
use crate::number::{decimal, decimal3, decimal3_of, decimal_of};
use crate::text::{
    chars_of, first_piece, first_piece_of, is_str, push_all, push_str, rows, same, sorted_set,
    string_of, strictly_sorted,
};

verus! {

broadcast use vstd::std_specs::hash::group_hash_axioms;

/// The group that an issue belongs to: its milestone, or the group of the
/// issues without one.
pub open spec fn milestone_key(i: Issue) -> Seq<char> {
    match i.milestone {
        Some(m) => m@,
        None => "_no_milestone"@,
    }
}

/// The heading of a group.
pub open spec fn milestone_label(key: Seq<char>) -> Seq<char> {
    if key == "_no_milestone"@ {
        "No milestone"@
    } else {
        key
    }
}

/// The link to the file of an issue, under its id and title.
pub open spec fn issue_link(i: Issue) -> Seq<char> {
    "[#"@ + decimal(i.id as nat) + seq![' '] + i.title@ + "]("@ + decimal3(i.id as nat) + seq!['-']
        + i.slug@ + ".md)"@
}

/// What the line of an epic says of its points and its due date.
pub open spec fn epic_meta(i: Issue) -> Seq<char> {
    let points = match i.points {
        Some(p) => decimal(p as nat) + "pts"@,
        None => Seq::empty(),
    };
    let due = match i.due {
        Some(d) => d@,
        None => Seq::empty(),
    };
    if due.len() == 0 {
        points
    } else if i.points is None {
        due
    } else {
        points + " \u{b7} "@ + due
    }
}

/// The line of an epic.
pub open spec fn epic_line(i: Issue) -> Seq<char> {
    "- **"@ + issue_link(i) + "** `epic` "@ + epic_meta(i) + seq!['\n']
}

/// The line of a child of an epic.
pub open spec fn child_line(c: Issue) -> Seq<char> {
    "  - "@ + issue_link(c) + " `"@ + c.issue_type@ + "` \u{b7} "@ + c.status@ + " \u{b7} "@
        + assignee_or_dash(c) + seq!['\n']
}

/// The lines of the children of an epic that have a record.
pub open spec fn children_text(m: Map<u32, Issue>, kids: Seq<u32>) -> Seq<char>
    decreases kids.len(),
{
    if kids.len() == 0 {
        Seq::empty()
    } else if m.contains_key(kids.last()) {
        children_text(m, kids.drop_last()) + child_line(m[kids.last()])
    } else {
        children_text(m, kids.drop_last())
    }
}

/// The row of an issue in the table of a group.
pub open spec fn table_row(i: Issue) -> Seq<char> {
    "| "@ + decimal(i.id as nat) + " | "@ + i.title@ + " | "@ + i.issue_type@ + " | "@
        + i.priority@ + " | "@ + assignee_or_dash(i) + " |\n"@
}

/// The epics of a group among the first `n` issues, each with its children.
pub open spec fn epics_text(m: Map<u32, Issue>, all: Seq<&Issue>, key: Seq<char>, n: nat) -> Seq<
    char,
>
    decreases n,
{
    if n == 0 {
        Seq::empty()
    } else if milestone_key(*all[n - 1]) == key && is_epic(*all[n - 1]) {
        epics_text(m, all, key, (n - 1) as nat) + epic_line(*all[n - 1]) + children_text(
            m,
            all[n - 1].epic_children@,
        )
    } else {
        epics_text(m, all, key, (n - 1) as nat)
    }
}

/// The rows of the other issues of a group among the first `n` issues.
pub open spec fn rows_text(all: Seq<&Issue>, key: Seq<char>, n: nat) -> Seq<char>
    decreases n,
{
    if n == 0 {
        Seq::empty()
    } else if milestone_key(*all[n - 1]) == key && !is_epic(*all[n - 1]) {
        rows_text(all, key, (n - 1) as nat) + table_row(*all[n - 1])
    } else {
        rows_text(all, key, (n - 1) as nat)
    }
}

/// One of the first `n` issues belongs to the group and is an epic, or is
/// none, as `epic` says.
pub open spec fn group_has(all: Seq<&Issue>, key: Seq<char>, epic: bool, n: int) -> bool {
    exists|i: int|
        0 <= i < n && i < all.len() && milestone_key(*#[trigger] all[i]) == key && is_epic(*all[i])
            == epic
}

/// The part of the page for one group: its heading, its epics, and the
/// table of its other issues.
pub open spec fn group_text(m: Map<u32, Issue>, all: Seq<&Issue>, key: Seq<char>) -> Seq<char> {
    "## "@ + milestone_label(key) + "\n\n"@ + (if group_has(all, key, true, all.len() as int) {
        "### Epics\n\n"@ + epics_text(m, all, key, all.len()) + seq!['\n']
    } else {
        Seq::empty()
    }) + (if group_has(all, key, false, all.len() as int) {
        "### Open Issues\n\n| # | Title | Type | Priority | Assignee |\n|---|-------|------|----------|----------|\n"@
            + rows_text(all, key, all.len()) + seq!['\n']
    } else {
        Seq::empty()
    })
}

/// The parts of the page for the first `n` groups.
pub open spec fn groups_text(m: Map<u32, Issue>, all: Seq<&Issue>, keys: Seq<Seq<char>>, n: nat) -> Seq<
    char,
>
    decreases n,
{
    if n == 0 {
        Seq::empty()
    } else {
        groups_text(m, all, keys, (n - 1) as nat) + group_text(m, all, keys[n - 1])
    }
}

/// Number of closed issues among the first `n`.
pub open spec fn closed_count(all: Seq<&Issue>, n: nat) -> nat
    decreases n,
{
    if n == 0 {
        0
    } else {
        closed_count(all, (n - 1) as nat) + if is_closed(*all[n - 1]) {
            1nat
        } else {
            0nat
        }
    }
}

/// The share of closed issues in percent, rounded down; 0 where there are none.
pub open spec fn percent(closed: nat, total: nat) -> nat {
    if total > 0 {
        closed * 100 / total
    } else {
        0
    }
}

/// `n` times the character `c`.
pub open spec fn repeated(c: char, n: nat) -> Seq<char> {
    Seq::new(n, |i: int| c)
}

/// The bar of ten cells of which one is filled for every ten percent.
pub open spec fn progress_bar(pct: nat) -> Seq<char> {
    repeated('\u{2588}', pct * 10 / 100) + repeated('\u{2591}', (10 - pct * 10 / 100) as nat)
}

/// The last part of the page: how many issues are closed.
pub open spec fn progress_text(closed: nat, total: nat) -> Seq<char> {
    "### Progress\n\n"@ + decimal(closed) + seq!['/'] + decimal(total) + " closed ("@ + decimal(
        percent(closed, total),
    ) + "%)\n\n"@ + progress_bar(percent(closed, total))
}

/// The roadmap page over the issues `all`, grouped under `keys`, dated `date`.
pub open spec fn roadmap_text(
    m: Map<u32, Issue>,
    all: Seq<&Issue>,
    keys: Seq<Seq<char>>,
    date: Seq<char>,
) -> Seq<char> {
    "# Roadmap\n\nGenerated from .llmd/issues/ \u{2014} "@ + date + "\n\n"@ + groups_text(
        m,
        all,
        keys,
        keys.len(),
    ) + progress_text(closed_count(all, all.len()), all.len())
}

/// The groups of the issues.
pub open spec fn keys_of_all(all: Seq<&Issue>) -> Seq<Seq<char>> {
    Seq::new(all.len(), |i: int| milestone_key(*all[i]))
}

/// The group that an issue belongs to.
fn milestone_key_of(issue: &Issue) -> (r: Vec<char>)
    ensures
        r@ == milestone_key(*issue),
{
    match &issue.milestone {
        Some(m) => chars_of(m.as_str()),
        None => chars_of("_no_milestone"),
    }
}

/// Appends the link to the file of an issue.
fn push_link(out: &mut Vec<char>, i: &Issue)
    ensures
        final(out)@ == old(out)@ + issue_link(*i),
{
    push_str(out, "[#");
    push_all(out, &decimal_of(i.id as u64));
    out.push(' ');
    push_str(out, i.title.as_str());
    push_str(out, "](");
    push_all(out, &decimal3_of(i.id as u64));
    out.push('-');
    push_str(out, i.slug.as_str());
    push_str(out, ".md)");
    assert(out@ =~= old(out)@ + issue_link(*i));
}

/// Appends the line of an epic and the lines of its children.
fn push_epic(out: &mut Vec<char>, issues: &HashMap<u32, Issue>, i: &Issue)
    ensures
        final(out)@ == old(out)@ + epic_line(*i) + children_text(issues@, i.epic_children@),
{
    push_str(out, "- **");
    push_link(out, i);
    push_str(out, "** `epic` ");
    let ghost head = out@;
    match i.points {
        Some(p) => {
            push_all(out, &decimal_of(p as u64));
            push_str(out, "pts");
        },
        None => {},
    }
    match &i.due {
        Some(d) => {
            let due = chars_of(d.as_str());
            if due.len() > 0 {
                if i.points.is_some() {
                    push_str(out, " \u{b7} ");
                }
                push_all(out, &due);
            }
        },
        None => {},
    }
    assert(out@ =~= head + epic_meta(*i));
    out.push('\n');
    assert(out@ =~= old(out)@ + epic_line(*i));
    let ghost lined = out@;
    let mut k: usize = 0;
    assert(i.epic_children@.take(0) =~= Seq::<u32>::empty());
    assert(out@ =~= lined + children_text(issues@, i.epic_children@.take(0)));
    while k < i.epic_children.len()
        invariant
            k <= i.epic_children.len(),
            out@ == lined + children_text(issues@, i.epic_children@.take(k as int)),
        decreases i.epic_children.len() - k,
    {
        let ghost before = out@;
        let ghost next = i.epic_children@.take(k + 1);
        assert(next.drop_last() =~= i.epic_children@.take(k as int));
        assert(next.last() == i.epic_children@[k as int]);
        match issues.get(&i.epic_children[k]) {
            Some(c) => {
                push_str(out, "  - ");
                push_link(out, c);
                push_str(out, " `");
                push_str(out, c.issue_type.as_str());
                push_str(out, "` \u{b7} ");
                push_str(out, c.status.as_str());
                push_str(out, " \u{b7} ");
                push_assignee(out, c);
                out.push('\n');
                assert(out@ =~= before + child_line(*c));
            },
            None => {},
        }
        k += 1;
    }
    assert(i.epic_children@.take(i.epic_children.len() as int) =~= i.epic_children@);
}

/// Appends the row of an issue in the table of a group.
fn push_row(out: &mut Vec<char>, i: &Issue)
    ensures
        final(out)@ == old(out)@ + table_row(*i),
{
    push_str(out, "| ");
    push_all(out, &decimal_of(i.id as u64));
    push_str(out, " | ");
    push_str(out, i.title.as_str());
    push_str(out, " | ");
    push_str(out, i.issue_type.as_str());
    push_str(out, " | ");
    push_str(out, i.priority.as_str());
    push_str(out, " | ");
    push_assignee(out, i);
    push_str(out, " |\n");
    assert(out@ =~= old(out)@ + table_row(*i));
}

/// Appends the part of the page for one group.
fn push_group(out: &mut Vec<char>, issues: &HashMap<u32, Issue>, all: &Vec<&Issue>, key: &Vec<char>)
    ensures
        final(out)@ == old(out)@ + group_text(issues@, all@, key@),
{
    let mut epics: Vec<char> = Vec::new();
    let mut others: Vec<char> = Vec::new();
    let mut any_epic = false;
    let mut any_other = false;
    let mut j: usize = 0;
    while j < all.len()
        invariant
            j <= all.len(),
            epics@ == epics_text(issues@, all@, key@, j as nat),
            others@ == rows_text(all@, key@, j as nat),
            any_epic == group_has(all@, key@, true, j as int),
            any_other == group_has(all@, key@, false, j as int),
        decreases all.len() - j,
    {
        let i = all[j];
        let k = milestone_key_of(i);
        let here = same(&k, key);
        let epic = text_is(&i.issue_type, "epic");
        if here && epic {
            push_epic(&mut epics, issues, i);
            any_epic = true;
        }
        if here && !epic {
            push_row(&mut others, i);
            any_other = true;
        }
        proof {
            let t = j as int;
            assert(group_has(all@, key@, true, t + 1) == (group_has(all@, key@, true, t) || (here
                && epic))) by {
                if group_has(all@, key@, true, t + 1) {
                    let w = choose|w: int|
                        0 <= w < t + 1 && w < all@.len() && milestone_key(*#[trigger] all@[w])
                            == key@ && is_epic(*all@[w]) == true;
                    if w < t {
                        assert(group_has(all@, key@, true, t));
                    }
                }
                if group_has(all@, key@, true, t) {
                    let w = choose|w: int|
                        0 <= w < t && w < all@.len() && milestone_key(*#[trigger] all@[w]) == key@
                            && is_epic(*all@[w]) == true;
                    assert(0 <= w < t + 1);
                }
                if here && epic {
                    assert(milestone_key(*all@[t]) == key@ && is_epic(*all@[t]) == true);
                }
            }
            assert(group_has(all@, key@, false, t + 1) == (group_has(all@, key@, false, t) || (
            here && !epic))) by {
                if group_has(all@, key@, false, t + 1) {
                    let w = choose|w: int|
                        0 <= w < t + 1 && w < all@.len() && milestone_key(*#[trigger] all@[w])
                            == key@ && is_epic(*all@[w]) == false;
                    if w < t {
                        assert(group_has(all@, key@, false, t));
                    }
                }
                if group_has(all@, key@, false, t) {
                    let w = choose|w: int|
                        0 <= w < t && w < all@.len() && milestone_key(*#[trigger] all@[w]) == key@
                            && is_epic(*all@[w]) == false;
                    assert(0 <= w < t + 1);
                }
                if here && !epic {
                    assert(milestone_key(*all@[t]) == key@ && is_epic(*all@[t]) == false);
                }
            }
        }
        j += 1;
    }
    push_str(out, "## ");
    if is_str(key, "_no_milestone") {
        push_str(out, "No milestone");
    } else {
        push_all(out, key);
    }
    push_str(out, "\n\n");
    let ghost headed = out@;
    assert(headed =~= old(out)@ + "## "@ + milestone_label(key@) + "\n\n"@);
    if any_epic {
        push_str(out, "### Epics\n\n");
        push_all(out, &epics);
        out.push('\n');
    }
    let ghost with_epics = out@;
    if any_other {
        push_str(
            out,
            "### Open Issues\n\n| # | Title | Type | Priority | Assignee |\n|---|-------|------|----------|----------|\n",
        );
        push_all(out, &others);
        out.push('\n');
    }
    assert(out@ =~= old(out)@ + group_text(issues@, all@, key@));
}

/// Appends the last part of the page.
fn push_progress(out: &mut Vec<char>, all: &Vec<&Issue>)
    ensures
        final(out)@ == old(out)@ + progress_text(closed_count(all@, all@.len()), all@.len()),
{
    let mut closed: usize = 0;
    let mut j: usize = 0;
    while j < all.len()
        invariant
            j <= all.len(),
            closed == closed_count(all@, j as nat),
            closed <= j,
        decreases all.len() - j,
    {
        if text_is(&all[j].status, "closed") {
            closed += 1;
        }
        j += 1;
    }
    let total = all.len();
    let pct: usize = if total > 0 {
        assert(closed as int * 100 / (total as int) <= 100) by (nonlinear_arith)
            requires
                closed <= total,
                total > 0,
        ;
        ((closed as u128) * 100 / (total as u128)) as usize
    } else {
        0
    };
    assert(pct == percent(closed as nat, total as nat));
    assert(pct <= 100);
    let filled: usize = pct * 10 / 100;
    push_str(out, "### Progress\n\n");
    push_all(out, &decimal_of(closed as u64));
    out.push('/');
    push_all(out, &decimal_of(total as u64));
    push_str(out, " closed (");
    push_all(out, &decimal_of(pct as u64));
    push_str(out, "%)\n\n");
    let ghost said = out@;
    let mut c: usize = 0;
    assert(out@ =~= said + repeated('\u{2588}', 0));
    while c < filled
        invariant
            c <= filled,
            out@ == said + repeated('\u{2588}', c as nat),
        decreases filled - c,
    {
        out.push('\u{2588}');
        c += 1;
        assert(out@ =~= said + repeated('\u{2588}', c as nat));
    }
    let ghost full = out@;
    let mut e: usize = 0;
    assert(out@ =~= full + repeated('\u{2591}', 0));
    while e < 10 - filled
        invariant
            e <= 10 - filled,
            filled <= 10,
            out@ == full + repeated('\u{2591}', e as nat),
        decreases 10 - filled - e,
    {
        out.push('\u{2591}');
        e += 1;
        assert(out@ =~= full + repeated('\u{2591}', e as nat));
    }
    assert(out@ =~= old(out)@ + progress_text(closed as nat, total as nat));
}

/// Writes the roadmap page: under the date of `now`, the issues in the
/// order of their ids, grouped by milestone in the dictionary order of the
/// milestones; in each group the epics with their children, then the table
/// of the other issues; at the end the share of closed issues.
pub fn generate_roadmap_page(issues: &HashMap<u32, Issue>, now: &str) -> (r: String)
    ensures
        exists|ks: Seq<u32>, all: Seq<&Issue>, keys: Seq<Seq<char>>|
            {
                &&& lists_keys(issues@, false, ks, all)
                &&& forall|k: u32| issues@.contains_key(k) <==> #[trigger] ks.contains(k)
                &&& strictly_sorted(keys)
                &&& forall|t: Seq<char>| keys.contains(t) <==> keys_of_all(all).contains(t)
                &&& r@ == roadmap_text(issues@, all, keys, first_piece(now@, "T"@))
            },
{
    let ks = keys_of(issues);
    assert forall|x: int| 0 <= x < ks@.len() implies issues@.contains_key(#[trigger] ks@[x]) by {
        assert(ks@.to_set().contains(ks@[x]));
    }
    let res = records_in_order(issues, &ks, false);
    let all = res.0;
    let ghost order = res.1@;
    let mut groups: Vec<Vec<char>> = Vec::new();
    let mut j: usize = 0;
    while j < all.len()
        invariant
            j <= all.len(),
            groups@.len() == j,
            forall|x: int| 0 <= x < j ==> (#[trigger] groups@[x])@ == milestone_key(*all@[x]),
        decreases all.len() - j,
    {
        groups.push(milestone_key_of(all[j]));
        j += 1;
    }
    assert(rows(groups@) =~= keys_of_all(all@));
    let keys = sorted_set(&groups);
    let date = first_piece_of(&chars_of(now), &chars_of("T"));
    let mut out = chars_of("# Roadmap\n\nGenerated from .llmd/issues/ \u{2014} ");
    push_all(&mut out, &date);
    push_str(&mut out, "\n\n");
    let ghost head = out@;
    let mut g: usize = 0;
    assert(out@ =~= head + groups_text(issues@, all@, rows(keys@), 0));
    while g < keys.len()
        invariant
            g <= keys.len(),
            out@ == head + groups_text(issues@, all@, rows(keys@), g as nat),
        decreases keys.len() - g,
    {
        assert(rows(keys@)[g as int] == keys@[g as int]@);
        push_group(&mut out, issues, &all, &keys[g]);
        g += 1;
    }
    push_progress(&mut out, &all);
    proof {
        assert forall|k: u32| issues@.contains_key(k) <==> #[trigger] order.contains(k) by {
            if issues@.contains_key(k) {
                assert(ks@.to_set().contains(k));
                assert(ks@.contains(k));
            }
            if order.contains(k) {
                assert(ks@.contains(k));
                assert(ks@.to_set().contains(k));
            }
        }
        assert(out@ =~= roadmap_text(issues@, all@, rows(keys@), first_piece(now@, "T"@)));
    }
    string_of(&out)
}

} // verus!
