//! Dependency graph operations: ready tasks, cycle detection, epic tree.

use std::collections::HashMap;
use std::collections::HashSet;
use vstd::prelude::*;
use crate::issues::models::{store_wf, Issue};
use crate::text::{chars_of, same};

verus! {

broadcast use vstd::std_specs::hash::group_hash_axioms;

/// Whether a string holds exactly the text of a literal.
pub fn text_is(s: &String, lit: &str) -> (r: bool)
    ensures
        r == (s@ == lit@),
{
    let a = chars_of(s.as_str());
    let b = chars_of(lit);
    same(&a, &b)
}

/// The keys of a store, each once, in the order in which the map hands them out.
pub fn keys_of(issues: &HashMap<u32, Issue>) -> (ks: Vec<u32>)
    ensures
        ks@.no_duplicates(),
        ks@.to_set() == issues@.dom(),
{
    broadcast use Seq::lemma_take_len;

    let mut ks: Vec<u32> = Vec::new();
    for k in it: issues.keys()
        invariant
            ks@ == it.seq().take(it.index()).unref(),
            it.seq().no_duplicates(),
            it.seq().unref().to_set() == issues@.dom(),
    {
        ks.push(*k);
    }
    ks
}

/// The issue's status is `closed`.
pub open spec fn is_closed(i: Issue) -> bool {
    i.status@ == "closed"@
}

/// The issue is a container: its type is `epic`.
pub open spec fn is_epic(i: Issue) -> bool {
    i.issue_type@ == "epic"@
}

/// The ids of the closed records among the given keys of the store.
pub open spec fn closed_among(m: Map<u32, Issue>, ks: Seq<u32>) -> Set<u32> {
    Set::new(
        |id: u32|
            exists|j: int|
                0 <= j < ks.len() && m.contains_key(#[trigger] ks[j]) && is_closed(m[ks[j]])
                    && m[ks[j]].id == id,
    )
}

/// The ids of the closed records of the store.
pub open spec fn closed_ids(m: Map<u32, Issue>) -> Set<u32> {
    Set::new(|id: u32| exists|k: u32| #[trigger] m.contains_key(k) && is_closed(m[k]) && m[k].id == id)
}

/// Every dependency of the issue is the id of a closed record of the store.
/// An id that no record has is never resolved.
pub open spec fn resolved(m: Map<u32, Issue>, i: Issue) -> bool {
    forall|j: int|
        0 <= j < i.dependencies@.len() ==> closed_ids(m).contains(#[trigger] i.dependencies@[j])
}

/// The issue is ready: not closed, no container where those are excluded,
/// and with every dependency resolved.
pub open spec fn is_ready(m: Map<u32, Issue>, i: Issue, exclude_epics: bool) -> bool {
    &&& !is_closed(i)
    &&& !(exclude_epics && is_epic(i))
    &&& resolved(m, i)
}

/// Rank of a priority: `high` is 0, `low` is 2, anything else is 1.
pub open spec fn priority_rank(p: Seq<char>) -> nat {
    if p == "high"@ {
        0
    } else if p == "low"@ {
        2
    } else {
        1
    }
}

/// `a` may stand before `b`: by priority rank, then by id.
pub open spec fn in_order(a: Issue, b: Issue) -> bool {
    ||| priority_rank(a.priority@) < priority_rank(b.priority@)
    ||| (priority_rank(a.priority@) == priority_rank(b.priority@) && a.id <= b.id)
}

/// `a` may stand before `b`: by priority rank and id where `ranked` holds,
/// else by id alone.
pub open spec fn in_order_by(ranked: bool, a: Issue, b: Issue) -> bool {
    if ranked {
        in_order(a, b)
    } else {
        a.id <= b.id
    }
}

/// `out` lists the records under `keys`, and `keys` are the keys of the
/// ready records, each once, in priority order.
pub open spec fn lists_ready(
    m: Map<u32, Issue>,
    exclude_epics: bool,
    keys: Seq<u32>,
    out: Seq<&Issue>,
) -> bool {
    &&& keys.no_duplicates()
    &&& keys.len() == out.len()
    &&& forall|i: int|
        0 <= i < keys.len() ==> m.contains_key(#[trigger] keys[i]) && *out[i] == m[keys[i]]
    &&& forall|k: u32|
        (m.contains_key(k) && is_ready(m, m[k], exclude_epics)) <==> #[trigger] keys.contains(k)
    &&& forall|i: int, j: int| 0 <= i < j < out.len() ==> in_order(*#[trigger] out[i], *#[trigger] out[j])
}

proof fn lemma_closed_among_all(m: Map<u32, Issue>, ks: Seq<u32>)
    requires
        ks.to_set() == m.dom(),
    ensures
        closed_among(m, ks) == closed_ids(m),
{
    assert forall|id: u32| closed_among(m, ks).contains(id) <==> closed_ids(m).contains(id) by {
        if closed_ids(m).contains(id) {
            let k = choose|k: u32| #[trigger] m.contains_key(k) && is_closed(m[k]) && m[k].id == id;
            assert(ks.to_set().contains(k));
            let j = choose|j: int| 0 <= j < ks.len() && ks[j] == k;
            assert(m.contains_key(ks[j]));
        }
    }
    assert(closed_among(m, ks) =~= closed_ids(m));
}

proof fn lemma_closed_among_step(m: Map<u32, Issue>, ks: Seq<u32>, i: int)
    requires
        0 <= i < ks.len(),
        m.contains_key(ks[i]),
    ensures
        closed_among(m, ks.take(i + 1)) == if is_closed(m[ks[i]]) {
            closed_among(m, ks.take(i)).insert(m[ks[i]].id)
        } else {
            closed_among(m, ks.take(i))
        },
{
    let a = ks.take(i);
    let b = ks.take(i + 1);
    let next = if is_closed(m[ks[i]]) {
        closed_among(m, a).insert(m[ks[i]].id)
    } else {
        closed_among(m, a)
    };
    assert forall|id: u32| closed_among(m, b).contains(id) <==> next.contains(id) by {
        if closed_among(m, b).contains(id) {
            let j = choose|j: int|
                0 <= j < b.len() && m.contains_key(#[trigger] b[j]) && is_closed(m[b[j]])
                    && m[b[j]].id == id;
            if j < i {
                assert(a[j] == b[j]);
                assert(m.contains_key(a[j]));
            }
        }
        if next.contains(id) {
            if closed_among(m, a).contains(id) {
                let j = choose|j: int|
                    0 <= j < a.len() && m.contains_key(#[trigger] a[j]) && is_closed(m[a[j]])
                        && m[a[j]].id == id;
                assert(b[j] == a[j]);
                assert(m.contains_key(b[j]));
            } else {
                assert(b[i] == ks[i]);
                assert(m.contains_key(b[i]));
            }
        }
    }
    assert(closed_among(m, b) =~= next);
}

/// The ids of the closed records of the store.
fn closed_set(issues: &HashMap<u32, Issue>, ks: &Vec<u32>) -> (closed: HashSet<u32>)
    requires
        ks@.to_set() == issues@.dom(),
    ensures
        closed@ == closed_ids(issues@),
{
    let mut closed: HashSet<u32> = HashSet::new();
    let mut i: usize = 0;
    assert(closed@ =~= closed_among(issues@, ks@.take(0)));
    while i < ks.len()
        invariant
            i <= ks.len(),
            ks@.to_set() == issues@.dom(),
            closed@ == closed_among(issues@, ks@.take(i as int)),
        decreases ks.len() - i,
    {
        assert(ks@.to_set().contains(ks@[i as int]));
        proof {
            lemma_closed_among_step(issues@, ks@, i as int);
        }
        match issues.get(&ks[i]) {
            Some(issue) => {
                if text_is(&issue.status, "closed") {
                    closed.insert(issue.id);
                }
            },
            None => {},
        }
        i += 1;
    }
    proof {
        assert(ks@.take(ks.len() as int) =~= ks@);
        lemma_closed_among_all(issues@, ks@);
    }
    closed
}

/// Whether every dependency of the issue is among the closed ids.
fn all_resolved(issue: &Issue, closed: &HashSet<u32>, Ghost(m): Ghost<Map<u32, Issue>>) -> (r: bool)
    requires
        closed@ == closed_ids(m),
    ensures
        r == resolved(m, *issue),
{
    let mut j: usize = 0;
    while j < issue.dependencies.len()
        invariant
            j <= issue.dependencies.len(),
            closed@ == closed_ids(m),
            forall|x: int| 0 <= x < j ==> closed_ids(m).contains(#[trigger] issue.dependencies@[x]),
        decreases issue.dependencies.len() - j,
    {
        if !closed.contains(&issue.dependencies[j]) {
            return false;
        }
        j += 1;
    }
    true
}

/// Rank of the issue's priority.
fn rank_of(issue: &Issue) -> (r: u8)
    ensures
        r == priority_rank(issue.priority@),
{
    if text_is(&issue.priority, "high") {
        0
    } else if text_is(&issue.priority, "low") {
        2
    } else {
        1
    }
}

/// Whether `a` may stand before `b`.
fn precedes(ranked: bool, a: &Issue, b: &Issue) -> (r: bool)
    ensures
        r == in_order_by(ranked, *a, *b),
{
    if ranked {
        let ra = rank_of(a);
        let rb = rank_of(b);
        ra < rb || (ra == rb && a.id <= b.id)
    } else {
        a.id <= b.id
    }
}

/// The keys of the ready records, in the order of `ks`.
fn ready_keys(issues: &HashMap<u32, Issue>, ks: &Vec<u32>, exclude_epics: bool) -> (sel: Vec<u32>)
    requires
        ks@.no_duplicates(),
        ks@.to_set() == issues@.dom(),
    ensures
        sel@.no_duplicates(),
        forall|k: u32|
            (issues@.contains_key(k) && is_ready(issues@, issues@[k], exclude_epics))
                <==> #[trigger] sel@.contains(k),
{
    let closed = closed_set(issues, ks);
    let mut sel: Vec<u32> = Vec::new();
    let mut i: usize = 0;
    while i < ks.len()
        invariant
            i <= ks.len(),
            ks@.no_duplicates(),
            ks@.to_set() == issues@.dom(),
            closed@ == closed_ids(issues@),
            sel@.no_duplicates(),
            forall|k: u32|
                #[trigger] sel@.contains(k) <==> (exists|j: int|
                    0 <= j < i && ks@[j] == k && is_ready(issues@, issues@[k], exclude_epics)),
        decreases ks.len() - i,
    {
        let k = ks[i];
        assert(ks@.to_set().contains(k));
        let ghost before = sel@;
        match issues.get(&k) {
            Some(issue) => {
                let ready = !text_is(&issue.status, "closed") && !(exclude_epics && text_is(
                    &issue.issue_type,
                    "epic",
                )) && all_resolved(issue, &closed, Ghost(issues@));
                if ready {
                    assert(!before.contains(k)) by {
                        if before.contains(k) {
                            let j = choose|j: int| 0 <= j < i && ks@[j] == k;
                            assert(ks@[j] == ks@[i as int]);
                        }
                    }
                    sel.push(k);
                    assert forall|x: u32| #[trigger] sel@.contains(x) <==> (exists|j: int|
                        0 <= j < i + 1 && ks@[j] == x && is_ready(
                            issues@,
                            issues@[x],
                            exclude_epics,
                        )) by {
                        if sel@.contains(x) {
                            let p = choose|p: int| 0 <= p < sel@.len() && sel@[p] == x;
                            if p < before.len() {
                                assert(before[p] == x);
                                assert(before.contains(x));
                            } else {
                                assert(ks@[i as int] == x);
                            }
                        }
                        if exists|j: int|
                            0 <= j < i + 1 && ks@[j] == x && is_ready(
                                issues@,
                                issues@[x],
                                exclude_epics,
                            ) {
                            let j = choose|j: int|
                                0 <= j < i + 1 && ks@[j] == x && is_ready(
                                    issues@,
                                    issues@[x],
                                    exclude_epics,
                                );
                            if j < i {
                                assert(before.contains(x));
                                let p = choose|p: int| 0 <= p < before.len() && before[p] == x;
                                assert(sel@[p] == x);
                            } else {
                                assert(sel@[before.len() as int] == x);
                            }
                        }
                    }
                } else {
                    assert forall|x: u32| #[trigger] sel@.contains(x) <==> (exists|j: int|
                        0 <= j < i + 1 && ks@[j] == x && is_ready(
                            issues@,
                            issues@[x],
                            exclude_epics,
                        )) by {
                        if exists|j: int|
                            0 <= j < i + 1 && ks@[j] == x && is_ready(
                                issues@,
                                issues@[x],
                                exclude_epics,
                            ) {
                            let j = choose|j: int|
                                0 <= j < i + 1 && ks@[j] == x && is_ready(
                                    issues@,
                                    issues@[x],
                                    exclude_epics,
                                );
                            assert(j < i);
                        }
                    }
                }
            },
            None => {},
        }
        i += 1;
    }
    assert forall|k: u32|
        (issues@.contains_key(k) && is_ready(issues@, issues@[k], exclude_epics))
            <==> #[trigger] sel@.contains(k) by {
        if issues@.contains_key(k) && is_ready(issues@, issues@[k], exclude_epics) {
            assert(ks@.to_set().contains(k));
            let j = choose|j: int| 0 <= j < ks@.len() && ks@[j] == k;
            assert(0 <= j < i && ks@[j] == k);
        }
        if sel@.contains(k) {
            let j = choose|j: int|
                0 <= j < i && ks@[j] == k && is_ready(issues@, issues@[k], exclude_epics);
            assert(ks@.to_set().contains(ks@[j]));
        }
    }
    sel
}

/// The given keys, ordered by the priority rank and the id of their
/// records, or by the id alone.
pub(crate) fn sort_keys(issues: &HashMap<u32, Issue>, sel: &Vec<u32>, ranked: bool) -> (out: Vec<u32>)
    requires
        sel@.no_duplicates(),
        forall|i: int| 0 <= i < sel@.len() ==> issues@.contains_key(#[trigger] sel@[i]),
    ensures
        out@.no_duplicates(),
        forall|k: u32| #[trigger] out@.contains(k) <==> sel@.contains(k),
        forall|i: int, j: int|
            0 <= i < j < out@.len() ==> in_order_by(
                ranked,
                issues@[#[trigger] out@[i]],
                issues@[#[trigger] out@[j]],
            ),
{
    let mut out: Vec<u32> = Vec::new();
    let mut i: usize = 0;
    while i < sel.len()
        invariant
            i <= sel.len(),
            sel@.no_duplicates(),
            forall|x: int| 0 <= x < sel@.len() ==> issues@.contains_key(#[trigger] sel@[x]),
            out@.no_duplicates(),
            out@.len() == i,
            forall|k: u32|
                #[trigger] out@.contains(k) <==> (exists|j: int| 0 <= j < i && sel@[j] == k),
            forall|a: int, b: int|
                0 <= a < b < out@.len() ==> in_order_by(
                ranked,
                    issues@[#[trigger] out@[a]],
                    issues@[#[trigger] out@[b]],
                ),
        decreases sel.len() - i,
    {
        let k = sel[i];
        assert(issues@.contains_key(sel@[i as int]));
        let issue = match issues.get(&k) {
            Some(x) => x,
            None => {
                return out;
            },
        };
        let mut p: usize = 0;
        let mut stop = false;
        while p < out.len() && !stop
            invariant
                p <= out.len(),
                *issue == issues@[k],
                forall|x: u32| #[trigger] out@.contains(x) ==> issues@.contains_key(x),
                forall|q: int| 0 <= q < p ==> in_order_by(
                ranked,issues@[#[trigger] out@[q]], *issue),
                stop ==> p < out.len() && !in_order_by(
                ranked,issues@[out@[p as int]], *issue),
            decreases out.len() - p + if stop { 0int } else { 1int },
        {
            assert(out@.contains(out@[p as int]));
            match issues.get(&out[p]) {
                Some(other) => {
                    if precedes(ranked, other, issue) {
                        p += 1;
                    } else {
                        stop = true;
                    }
                },
                None => {
                    stop = true;
                },
            }
        }
        let ghost before = out@;
        assert(!before.contains(k)) by {
            if before.contains(k) {
                let j = choose|j: int| 0 <= j < i && sel@[j] == k;
                assert(sel@[j] == sel@[i as int]);
            }
        }
        out.insert(p, k);
        assert(out@ == before.insert(p as int, k));
        assert forall|a: int, b: int| 0 <= a < b < out@.len() implies in_order_by(
                ranked,
            issues@[#[trigger] out@[a]],
            issues@[#[trigger] out@[b]],
        ) by {
            let ia = if a < p { a } else { a - 1 };
            let ib = if b < p { b } else { b - 1 };
            if a != p {
                assert(out@[a] == before[ia]);
            }
            if b != p {
                assert(out@[b] == before[ib]);
            }
            if a == p {
                assert(p < before.len());
                assert(ib >= p);
                if ib > p {
                    assert(in_order_by(
                ranked,issues@[before[p as int]], issues@[before[ib]]));
                }
            } else if b == p {
                assert(ia < p);
            } else {
                assert(ia < ib);
            }
        }
        assert(out@.no_duplicates()) by {
            assert forall|a: int, b: int| 0 <= a < out@.len() && 0 <= b < out@.len() && a != b implies out@[a] != out@[b] by {
                let ia = if a < p { a } else { a - 1 };
                let ib = if b < p { b } else { b - 1 };
                if a != p {
                    assert(out@[a] == before[ia]);
                    assert(before.contains(before[ia]));
                }
                if b != p {
                    assert(out@[b] == before[ib]);
                    assert(before.contains(before[ib]));
                }
            }
        }
        assert forall|x: u32| #[trigger] out@.contains(x) <==> (exists|j: int|
            0 <= j < i + 1 && sel@[j] == x) by {
            if out@.contains(x) {
                let a = choose|a: int| 0 <= a < out@.len() && out@[a] == x;
                if a == p {
                    assert(sel@[i as int] == x);
                } else {
                    let ia = if a < p { a } else { a - 1 };
                    assert(out@[a] == before[ia]);
                    assert(before.contains(x));
                    let j = choose|j: int| 0 <= j < i && sel@[j] == x;
                    assert(0 <= j < i + 1 && sel@[j] == x);
                }
            }
            if exists|j: int| 0 <= j < i + 1 && sel@[j] == x {
                let j = choose|j: int| 0 <= j < i + 1 && sel@[j] == x;
                if j < i {
                    assert(before.contains(x));
                    let a = choose|a: int| 0 <= a < before.len() && before[a] == x;
                    let oa = if a < p { a } else { a + 1 };
                    assert(out@[oa] == x);
                } else {
                    assert(out@[p as int] == x);
                }
            }
        }
        i += 1;
    }
    assert forall|k: u32| #[trigger] out@.contains(k) <==> sel@.contains(k) by {
        if sel@.contains(k) {
            let j = choose|j: int| 0 <= j < sel@.len() && sel@[j] == k;
            assert(0 <= j < i && sel@[j] == k);
        }
    }
    out
}

/// Returns the open issues that have no unresolved dependency, without the
/// epics where `exclude_epics` is set: ordered by priority rank (high, then
/// medium or unknown, then low), then by id.
///
/// A dependency on an id that no record has is never resolved.
pub fn ready_tasks<'a>(issues: &'a HashMap<u32, Issue>, exclude_epics: bool) -> (r: Vec<&'a Issue>)
    ensures
        exists|keys: Seq<u32>| lists_ready(issues@, exclude_epics, keys, r@),
        forall|i: int| 0 <= i < r@.len() ==> is_ready(issues@, *#[trigger] r@[i], exclude_epics),
        forall|i: int| 0 <= i < r@.len() ==> !is_closed(*#[trigger] r@[i]),
        exclude_epics ==> forall|i: int| 0 <= i < r@.len() ==> !is_epic(*#[trigger] r@[i]),
        forall|i: int, j: int|
            0 <= i < j < r@.len() ==> in_order(*#[trigger] r@[i], *#[trigger] r@[j]),
{
    let ks = keys_of(issues);
    let sel = ready_keys(issues, &ks, exclude_epics);
    assert forall|i: int| 0 <= i < sel@.len() implies issues@.contains_key(#[trigger] sel@[i]) by {
        assert(sel@.contains(sel@[i]));
    }
    let keys = sort_keys(issues, &sel, true);
    let mut r: Vec<&'a Issue> = Vec::new();
    let mut i: usize = 0;
    while i < keys.len()
        invariant
            i <= keys.len(),
            r@.len() == i,
            forall|k: u32| #[trigger] keys@.contains(k) ==> issues@.contains_key(k),
            forall|j: int| 0 <= j < i ==> *#[trigger] r@[j] == issues@[keys@[j]],
        decreases keys.len() - i,
    {
        assert(keys@.contains(keys@[i as int]));
        match issues.get(&keys[i]) {
            Some(issue) => {
                r.push(issue);
            },
            None => {
                return r;
            },
        }
        i += 1;
    }
    proof {
        assert forall|j: int| 0 <= j < keys@.len() implies issues@.contains_key(
            #[trigger] keys@[j],
        ) && *r@[j] == issues@[keys@[j]] by {
            assert(keys@.contains(keys@[j]));
        }
        assert forall|j: int| 0 <= j < r@.len() implies is_ready(
            issues@,
            *#[trigger] r@[j],
            exclude_epics,
        ) by {
            assert(keys@.contains(keys@[j]));
            assert(sel@.contains(keys@[j]));
        }
        assert forall|a: int, b: int| 0 <= a < b < r@.len() implies in_order(
            *#[trigger] r@[a],
            *#[trigger] r@[b],
        ) by {
            assert(in_order(issues@[keys@[a]], issues@[keys@[b]]));
        }
        assert(lists_ready(issues@, exclude_epics, keys@, r@));
    }
    r
}

/// The ids that the record under `id` lists as its children; none where the
/// store has no such record.
pub open spec fn children(m: Map<u32, Issue>, id: u32) -> Seq<u32> {
    if m.contains_key(id) {
        m[id].epic_children@
    } else {
        Seq::empty()
    }
}

/// The children of each id of `level`, in order: the next level of the hierarchy.
pub open spec fn expand(m: Map<u32, Issue>, level: Seq<u32>) -> Seq<u32>
    decreases level.len(),
{
    if level.len() == 0 {
        Seq::empty()
    } else {
        expand(m, level.drop_last()) + children(m, level.last())
    }
}

/// Each id of `level` with the depth `d`.
pub open spec fn at_depth(level: Seq<u32>, d: nat) -> Seq<(u32, nat)> {
    level.map_values(|id: u32| (id, d))
}

/// The breadth-first listing that starts with `level` at depth `d` and goes
/// on level by level, for at most `rounds` levels.
pub open spec fn traversal(m: Map<u32, Issue>, level: Seq<u32>, d: nat, rounds: nat) -> Seq<
    (u32, nat),
>
    decreases rounds,
{
    if rounds == 0 || level.len() == 0 {
        Seq::empty()
    } else {
        at_depth(level, d) + traversal(m, expand(m, level), d + 1, (rounds - 1) as nat)
    }
}

/// The breadth-first listing of the hierarchy under `root`. It holds one
/// level more than the store has records: in a hierarchy without a cycle no
/// walk is longer than that.
pub open spec fn epic_walk(m: Map<u32, Issue>, root: u32) -> Seq<(u32, nat)> {
    traversal(m, seq![root], 0, m.dom().len() + 1)
}

/// What a listing with machine depths stands for.
pub open spec fn tree_view(v: Seq<(u32, usize)>) -> Seq<(u32, nat)> {
    v.map_values(|e: (u32, usize)| (e.0, e.1 as nat))
}

/// A walk of exactly `d` child edges leads from `root` to `id`.
pub open spec fn reaches_in(m: Map<u32, Issue>, root: u32, id: u32, d: nat) -> bool
    decreases d,
{
    if d == 0 {
        id == root
    } else {
        exists|mid: u32|
            reaches_in(m, root, mid, (d - 1) as nat) && #[trigger] children(m, mid).contains(id)
    }
}

/// `d` is the breadth-first distance of `id` from `root`: the length of a
/// shortest walk along child edges.
pub open spec fn is_distance(m: Map<u32, Issue>, root: u32, id: u32, d: nat) -> bool {
    &&& reaches_in(m, root, id, d)
    &&& forall|e: nat| e < d ==> !reaches_in(m, root, id, e)
}

/// All walks from `root` to `id` have one length, as in any forest.
pub open spec fn single_depth(m: Map<u32, Issue>, root: u32, id: u32) -> bool {
    forall|a: nat, b: nat| reaches_in(m, root, id, a) && reaches_in(m, root, id, b) ==> a == b
}

proof fn lemma_expand_reaches(m: Map<u32, Issue>, root: u32, level: Seq<u32>, d: nat)
    requires
        forall|i: int| 0 <= i < level.len() ==> reaches_in(m, root, #[trigger] level[i], d),
    ensures
        forall|i: int|
            0 <= i < expand(m, level).len() ==> reaches_in(
                m,
                root,
                #[trigger] expand(m, level)[i],
                d + 1,
            ),
    decreases level.len(),
{
    if level.len() > 0 {
        let init = level.drop_last();
        assert forall|i: int| 0 <= i < init.len() implies reaches_in(
            m,
            root,
            #[trigger] init[i],
            d,
        ) by {
            assert(init[i] == level[i]);
        }
        lemma_expand_reaches(m, root, init, d);
        let e = expand(m, level);
        assert forall|i: int| 0 <= i < e.len() implies reaches_in(m, root, #[trigger] e[i], d + 1) by {
            if i < expand(m, init).len() {
                assert(e[i] == expand(m, init)[i]);
            } else {
                let c = children(m, level.last());
                assert(e[i] == c[i - expand(m, init).len()]);
                assert(c.contains(e[i]));
                assert(reaches_in(m, root, level[level.len() - 1], d));
            }
        }
    }
}

proof fn lemma_traversal_reaches(
    m: Map<u32, Issue>,
    root: u32,
    level: Seq<u32>,
    d: nat,
    rounds: nat,
)
    requires
        forall|i: int| 0 <= i < level.len() ==> reaches_in(m, root, #[trigger] level[i], d),
    ensures
        forall|k: int|
            0 <= k < traversal(m, level, d, rounds).len() ==> reaches_in(
                m,
                root,
                (#[trigger] traversal(m, level, d, rounds)[k]).0,
                traversal(m, level, d, rounds)[k].1,
            ),
    decreases rounds,
{
    if rounds != 0 && level.len() != 0 {
        lemma_expand_reaches(m, root, level, d);
        lemma_traversal_reaches(m, root, expand(m, level), d + 1, (rounds - 1) as nat);
        let t = traversal(m, level, d, rounds);
        let rest = traversal(m, expand(m, level), d + 1, (rounds - 1) as nat);
        assert forall|k: int| 0 <= k < t.len() implies reaches_in(
            m,
            root,
            (#[trigger] t[k]).0,
            t[k].1,
        ) by {
            if k < level.len() {
                assert(t[k] == (level[k], d));
            } else {
                assert(t[k] == rest[k - level.len()]);
            }
        }
    }
}

/// The listing of a hierarchy puts the root first, at depth 0, and gives each
/// id a depth that is the length of a walk from the root to it along child
/// edges.
pub proof fn lemma_epic_walk_depths(m: Map<u32, Issue>, root: u32)
    ensures
        epic_walk(m, root).len() > 0,
        epic_walk(m, root)[0] == (root, 0nat),
        forall|k: int|
            0 <= k < epic_walk(m, root).len() ==> reaches_in(
                m,
                root,
                (#[trigger] epic_walk(m, root)[k]).0,
                epic_walk(m, root)[k].1,
            ),
{
    let level = seq![root];
    assert(reaches_in(m, root, root, 0));
    lemma_traversal_reaches(m, root, level, 0, m.dom().len() + 1);
    assert(at_depth(level, 0)[0] == (root, 0nat));
}

/// Where all walks from the root to an id have one length, as in a forest,
/// the depth that the listing gives the id is its breadth-first distance
/// from the root.
pub proof fn lemma_epic_walk_distance(m: Map<u32, Issue>, root: u32, k: int)
    requires
        0 <= k < epic_walk(m, root).len(),
        single_depth(m, root, epic_walk(m, root)[k].0),
    ensures
        is_distance(m, root, epic_walk(m, root)[k].0, epic_walk(m, root)[k].1),
{
    lemma_epic_walk_depths(m, root);
}

/// Returns the epic tree under `root_id`, breadth first: each id with its
/// depth, the root first at depth 0, then level by level the ids that the
/// records list as `epic_children`. An id without a record is listed and has
/// no children. The listing ends after one level more than the store has
/// records, which only a hierarchy with a cycle reaches.
pub fn epic_tree(issues: &HashMap<u32, Issue>, root_id: u32) -> (r: Vec<(u32, usize)>)
    ensures
        tree_view(r@) == epic_walk(issues@, root_id),
        r@.len() > 0,
        r@[0] == (root_id, 0usize),
{
    let n = issues.len();
    let mut result: Vec<(u32, usize)> = Vec::new();
    let mut level: Vec<u32> = Vec::new();
    level.push(root_id);
    let mut d: usize = 0;
    assert(level@ =~= seq![root_id]);
    assert(tree_view(result@) + epic_walk(issues@, root_id) =~= epic_walk(issues@, root_id));
    loop
        invariant
            n == issues@.dom().len(),
            d <= n,
            tree_view(result@) + traversal(issues@, level@, d as nat, (n + 1 - d) as nat)
                == epic_walk(issues@, root_id),
        decreases n - d,
    {
        if level.len() == 0 {
            assert(tree_view(result@) + Seq::<(u32, nat)>::empty() =~= tree_view(result@));
            proof {
                lemma_epic_walk_depths(issues@, root_id);
                assert(tree_view(result@)[0] == (root_id, 0nat));
            }
            return result;
        }
        let ghost before = tree_view(result@);
        let mut next: Vec<u32> = Vec::new();
        let mut j: usize = 0;
        assert(level@.take(0) =~= Seq::<u32>::empty());
        assert(before + at_depth(level@.take(0), d as nat) =~= before);
        while j < level.len()
            invariant
                j <= level.len(),
                tree_view(result@) == before + at_depth(level@.take(j as int), d as nat),
                next@ == expand(issues@, level@.take(j as int)),
            decreases level.len() - j,
        {
            let id = level[j];
            let ghost seen = level@.take(j as int);
            let ghost more = level@.take(j + 1);
            assert(more.drop_last() =~= seen);
            assert(more.last() == id);
            let ghost prev = result@;
            result.push((id, d));
            assert(tree_view(result@) =~= tree_view(prev).push((id, d as nat)));
            assert(at_depth(more, d as nat) =~= at_depth(seen, d as nat).push((id, d as nat)));
            assert(tree_view(result@) =~= before + at_depth(more, d as nat));
            match issues.get(&id) {
                Some(issue) => {
                    let ghost start = next@;
                    let mut c: usize = 0;
                    while c < issue.epic_children.len()
                        invariant
                            c <= issue.epic_children.len(),
                            next@ == start + issue.epic_children@.take(c as int),
                        decreases issue.epic_children.len() - c,
                    {
                        next.push(issue.epic_children[c]);
                        c += 1;
                        assert(next@ =~= start + issue.epic_children@.take(c as int));
                    }
                    assert(issue.epic_children@.take(c as int) =~= issue.epic_children@);
                },
                None => {
                    assert(next@ + Seq::<u32>::empty() =~= next@);
                },
            }
            j += 1;
        }
        assert(level@.take(level.len() as int) =~= level@);
        proof {
            let t = traversal(issues@, level@, d as nat, (n + 1 - d) as nat);
            let rest = traversal(issues@, next@, (d + 1) as nat, (n - d) as nat);
            assert(t == at_depth(level@, d as nat) + rest);
            assert(tree_view(result@) + rest =~= before + t);
        }
        if d == n {
            assert(tree_view(result@) + Seq::<(u32, nat)>::empty() =~= tree_view(result@));
            proof {
                lemma_epic_walk_depths(issues@, root_id);
                assert(tree_view(result@)[0] == (root_id, 0nat));
            }
            return result;
        }
        level = next;
        d += 1;
    }
}

/// The ids that the record under `id` points to: its dependencies, then its
/// parent; none where the store has no such record.
pub open spec fn successors(m: Map<u32, Issue>, id: u32) -> Seq<u32> {
    if m.contains_key(id) {
        match m[id].parent {
            Some(p) => m[id].dependencies@.push(p),
            None => m[id].dependencies@,
        }
    } else {
        Seq::empty()
    }
}

/// The record under `a` depends on `b` or has `b` as its parent.
pub open spec fn is_edge(m: Map<u32, Issue>, a: u32, b: u32) -> bool {
    successors(m, a).contains(b)
}

/// Each id of `w` points to the next one.
pub open spec fn is_walk(m: Map<u32, Issue>, w: Seq<u32>) -> bool {
    forall|i: int| 0 <= i < w.len() - 1 ==> is_edge(m, #[trigger] w[i], w[i + 1])
}

/// `w` is a walk over at least one edge that ends where it starts.
pub open spec fn is_cycle(m: Map<u32, Issue>, w: Seq<u32>) -> bool {
    w.len() >= 2 && is_walk(m, w) && w[0] == w.last()
}

/// The graph of dependency and parent edges has a cycle.
pub open spec fn cyclic(m: Map<u32, Issue>) -> bool {
    exists|w: Seq<u32>| is_cycle(m, w)
}

/// The search has left `u`: it was visited and is no longer on the stack.
pub open spec fn finished(visited: Set<u32>, stack: Set<u32>, u: u32) -> bool {
    visited.contains(u) && !stack.contains(u)
}

/// What holds between the calls of the search: the stack is visited, and
/// every edge from a finished id leads to an id that was finished before it.
pub open spec fn search_inv(
    m: Map<u32, Issue>,
    visited: Set<u32>,
    stack: Set<u32>,
    rank: Map<u32, nat>,
    next: nat,
) -> bool {
    &&& forall|u: u32| stack.contains(u) ==> visited.contains(u)
    &&& forall|u: u32| #[trigger]
        finished(visited, stack, u) ==> rank.dom().contains(u) && rank[u] < next
    &&& forall|u: u32, v: u32|
        finished(visited, stack, u) && #[trigger] is_edge(m, u, v) ==> finished(visited, stack, v)
            && rank[v] < rank[u]
}

proof fn lemma_walk_descends(
    m: Map<u32, Issue>,
    visited: Set<u32>,
    rank: Map<u32, nat>,
    next: nat,
    w: Seq<u32>,
    i: int,
)
    requires
        search_inv(m, visited, Set::empty(), rank, next),
        forall|k: u32| m.contains_key(k) ==> visited.contains(k),
        is_walk(m, w),
        0 < i < w.len(),
    ensures
        rank[w[i]] < rank[w[0]],
    decreases i,
{
    assert(is_edge(m, w[i - 1], w[i]));
    assert(m.contains_key(w[i - 1]));
    assert(finished(visited, Set::empty(), w[i - 1]));
    if i > 1 {
        lemma_walk_descends(m, visited, rank, next, w, i - 1);
    }
}

proof fn lemma_searched_is_acyclic(
    m: Map<u32, Issue>,
    visited: Set<u32>,
    rank: Map<u32, nat>,
    next: nat,
)
    requires
        search_inv(m, visited, Set::empty(), rank, next),
        forall|k: u32| m.contains_key(k) ==> visited.contains(k),
    ensures
        !cyclic(m),
{
    if cyclic(m) {
        let w = choose|w: Seq<u32>| is_cycle(m, w);
        lemma_walk_descends(m, visited, rank, next, w, w.len() - 1);
    }
}

proof fn lemma_unvisited_shrinks(d: Set<u32>, a: Set<u32>, b: Set<u32>, id: u32)
    requires
        d.finite(),
        a.subset_of(b),
        d.contains(id),
        !a.contains(id),
        b.contains(id),
    ensures
        d.difference(b).len() < d.difference(a).len(),
{
    let x = d.difference(a);
    let y = d.difference(b);
    vstd::set_lib::lemma_len_subset(x, d);
    assert(x.contains(id));
    assert(y.subset_of(x.remove(id)));
    vstd::set_lib::lemma_len_subset(y, x.remove(id));
}

/// The ids that the record under `id` points to.
fn successors_of(issues: &HashMap<u32, Issue>, id: u32) -> (r: Vec<u32>)
    ensures
        r@ == successors(issues@, id),
{
    let mut r: Vec<u32> = Vec::new();
    match issues.get(&id) {
        Some(issue) => {
            let mut c: usize = 0;
            while c < issue.dependencies.len()
                invariant
                    c <= issue.dependencies.len(),
                    r@ == issue.dependencies@.take(c as int),
                decreases issue.dependencies.len() - c,
            {
                r.push(issue.dependencies[c]);
                c += 1;
                assert(r@ =~= issue.dependencies@.take(c as int));
            }
            assert(issue.dependencies@.take(c as int) =~= issue.dependencies@);
            match issue.parent {
                Some(p) => {
                    r.push(p);
                },
                None => {},
            }
        },
        None => {},
    }
    r
}

/// Depth-first search from `id`: reports whether an edge leads back to an id
/// on the stack.
#[verifier::rlimit(40)]
fn cycle_dfs(
    id: u32,
    issues: &HashMap<u32, Issue>,
    visited: &mut HashSet<u32>,
    stack: &mut HashSet<u32>,
    Ghost(path): Ghost<Seq<u32>>,
    Ghost(rank): Ghost<Map<u32, nat>>,
    Ghost(next): Ghost<nat>,
) -> (r: (bool, Ghost<Map<u32, nat>>, Ghost<nat>))
    requires
        !old(visited)@.contains(id),
        search_inv(issues@, old(visited)@, old(stack)@, rank, next),
        is_walk(issues@, path.push(id)),
        forall|x: u32| old(stack)@.contains(x) ==> path.contains(x),
    ensures
        r.0 ==> cyclic(issues@),
        !r.0 ==> search_inv(issues@, final(visited)@, final(stack)@, r.1@, r.2@),
        !r.0 ==> final(stack)@ == old(stack)@,
        !r.0 ==> old(visited)@.insert(id).subset_of(final(visited)@),
    decreases issues@.dom().difference(old(visited)@).len(),
{
    visited.insert(id);
    stack.insert(id);
    let succ = successors_of(issues, id);
    let ghost m = issues@;
    let ghost walk = path.push(id);
    let ghost mut rank = rank;
    let ghost mut next = next;
    assert(walk.contains(id)) by {
        assert(walk[walk.len() - 1] == id);
    }
    assert forall|x: u32| stack@.contains(x) implies walk.contains(x) by {
        if x != id {
            assert(old(stack)@.contains(x));
            assert(path.contains(x));
            let p = choose|p: int| 0 <= p < path.len() && path[p] == x;
            assert(walk[p] == x);
        }
    }
    proof {
        let v0 = old(visited)@;
        let s0 = old(stack)@;
        assert forall|u: u32| #[trigger] finished(visited@, stack@, u) implies rank.dom().contains(
            u,
        ) && rank[u] < next by {
            assert(finished(v0, s0, u));
        }
        assert forall|u: u32, v: u32|
            finished(visited@, stack@, u) && #[trigger] is_edge(m, u, v) implies finished(
            visited@,
            stack@,
            v,
        ) && rank[v] < rank[u] by {
            assert(finished(v0, s0, u));
            assert(finished(v0, s0, v));
        }
    }
    let mut j: usize = 0;
    while j < succ.len()
        invariant
            j <= succ.len(),
            m == issues@,
            succ@ == successors(m, id),
            walk == path.push(id),
            !old(visited)@.contains(id),
            forall|u: u32| old(stack)@.contains(u) ==> old(visited)@.contains(u),
            old(visited)@.insert(id).subset_of(visited@),
            stack@ == old(stack)@.insert(id),
            search_inv(m, visited@, stack@, rank, next),
            is_walk(m, walk),
            forall|x: u32| stack@.contains(x) ==> walk.contains(x),
            forall|x: int| 0 <= x < j ==> finished(visited@, stack@, #[trigger] succ@[x]),
        decreases succ.len() - j,
    {
        let dep = succ[j];
        assert(succ@.contains(dep));
        assert(is_edge(m, id, dep));
        if !visited.contains(&dep) {
            proof {
                lemma_unvisited_shrinks(m.dom(), old(visited)@, visited@, id);
                let w2 = walk.push(dep);
                assert forall|i: int| 0 <= i < w2.len() - 1 implies is_edge(
                    m,
                    #[trigger] w2[i],
                    w2[i + 1],
                ) by {
                    if i < walk.len() - 1 {
                        assert(w2[i] == walk[i]);
                        assert(w2[i + 1] == walk[i + 1]);
                    } else {
                        assert(w2[i] == id);
                        assert(w2[i + 1] == dep);
                    }
                }
            }
            let ghost stack_before = stack@;
            let ghost visited_before = visited@;
            let res = cycle_dfs(dep, issues, visited, stack, Ghost(walk), Ghost(rank), Ghost(next));
            if res.0 {
                return (true, Ghost(rank), Ghost(next));
            }
            proof {
                rank = res.1@;
                next = res.2@;
                assert(visited@.contains(dep));
                assert forall|x: int| 0 <= x < j + 1 implies finished(
                    visited@,
                    stack@,
                    #[trigger] succ@[x],
                ) by {
                    if x < j {
                        assert(finished(visited_before, stack_before, succ@[x]));
                        assert(visited_before.insert(dep).contains(succ@[x]));
                    }
                }
            }
        } else if stack.contains(&dep) {
            proof {
                assert(stack@.contains(dep));
                assert(walk.contains(dep));
                let p = choose|p: int| 0 <= p < walk.len() && walk[p] == dep;
                let w = walk.subrange(p, walk.len() as int).push(dep);
                assert forall|i: int| 0 <= i < w.len() - 1 implies is_edge(
                    m,
                    #[trigger] w[i],
                    w[i + 1],
                ) by {
                    assert(w[i] == walk[p + i]);
                    if i < w.len() - 2 {
                        assert(w[i + 1] == walk[p + i + 1]);
                    } else {
                        assert(w[i] == id);
                        assert(w[i + 1] == dep);
                    }
                }
                assert(w[0] == walk[p]);
                assert(is_cycle(m, w));
            }
            return (true, Ghost(rank), Ghost(next));
        }
        j += 1;
    }
    stack.remove(&id);
    proof {
        assert(stack@ =~= old(stack)@);
        let ghost rank2 = rank.insert(id, next);
        let ghost next2 = next + 1;
        let st = old(stack)@.insert(id);
        assert forall|u: u32| #[trigger] finished(visited@, stack@, u) implies rank2.dom().contains(
            u,
        ) && rank2[u] < next2 by {
            if u != id {
                assert(finished(visited@, st, u));
            }
        }
        assert forall|u: u32, v: u32|
            finished(visited@, stack@, u) && #[trigger] is_edge(m, u, v) implies finished(
            visited@,
            stack@,
            v,
        ) && rank2[v] < rank2[u] by {
            if u != id {
                assert(finished(visited@, st, u));
                assert(finished(visited@, st, v));
            } else {
                let x = choose|x: int| 0 <= x < succ@.len() && succ@[x] == v;
                assert(finished(visited@, st, succ@[x]));
            }
        }
        rank = rank2;
        next = next2;
    }
    (false, Ghost(rank), Ghost(next))
}

/// Detects a cycle in the graph of dependency and parent edges.
pub fn has_cycle(issues: &HashMap<u32, Issue>) -> (r: bool)
    ensures
        r == cyclic(issues@),
{
    let ks = keys_of(issues);
    let mut visited: HashSet<u32> = HashSet::new();
    let mut stack: HashSet<u32> = HashSet::new();
    let ghost mut rank: Map<u32, nat> = Map::empty();
    let ghost mut next: nat = 0;
    let mut i: usize = 0;
    while i < ks.len()
        invariant
            i <= ks.len(),
            ks@.to_set() == issues@.dom(),
            stack@ == Set::<u32>::empty(),
            search_inv(issues@, visited@, stack@, rank, next),
            forall|x: int| 0 <= x < i ==> visited@.contains(#[trigger] ks@[x]),
        decreases ks.len() - i,
    {
        let k = ks[i];
        if !visited.contains(&k) {
            let ghost before = visited@;
            let ghost start = Seq::<u32>::empty();
            let res = cycle_dfs(
                k,
                issues,
                &mut visited,
                &mut stack,
                Ghost(start),
                Ghost(rank),
                Ghost(next),
            );
            if res.0 {
                return true;
            }
            proof {
                rank = res.1@;
                next = res.2@;
                assert(before.insert(k).contains(k));
                assert forall|x: int| 0 <= x < i implies visited@.contains(#[trigger] ks@[x]) by {
                    assert(before.insert(k).contains(ks@[x]));
                }
            }
        }
        i += 1;
    }
    proof {
        assert forall|k: u32| issues@.contains_key(k) implies visited@.contains(k) by {
            assert(ks@.to_set().contains(k));
            let x = choose|x: int| 0 <= x < ks@.len() && ks@[x] == k;
            assert(visited@.contains(ks@[x]));
        }
        lemma_searched_is_acyclic(issues@, visited@, rank, next);
    }
    false
}

/// `out` lists the records under `keys`, which are keys of the store, each
/// once, in order: by priority rank and id where `ranked` holds, else by id.
pub open spec fn lists_keys(m: Map<u32, Issue>, ranked: bool, keys: Seq<u32>, out: Seq<&Issue>) -> bool {
    &&& keys.no_duplicates()
    &&& keys.len() == out.len()
    &&& forall|i: int|
        0 <= i < keys.len() ==> m.contains_key(#[trigger] keys[i]) && *out[i] == m[keys[i]]
    &&& forall|i: int, j: int|
        0 <= i < j < out.len() ==> in_order_by(ranked, *#[trigger] out[i], *#[trigger] out[j])
}

/// The records under the given keys, in order.
pub(crate) fn records_in_order<'a>(issues: &'a HashMap<u32, Issue>, sel: &Vec<u32>, ranked: bool) -> (r: (
    Vec<&'a Issue>,
    Ghost<Seq<u32>>,
))
    requires
        sel@.no_duplicates(),
        forall|i: int| 0 <= i < sel@.len() ==> issues@.contains_key(#[trigger] sel@[i]),
    ensures
        lists_keys(issues@, ranked, r.1@, r.0@),
        forall|k: u32| #[trigger] r.1@.contains(k) <==> sel@.contains(k),
{
    let keys = sort_keys(issues, sel, ranked);
    let mut r: Vec<&'a Issue> = Vec::new();
    let mut i: usize = 0;
    assert forall|k: u32| #[trigger] keys@.contains(k) implies issues@.contains_key(k) by {
        assert(sel@.contains(k));
        let j = choose|j: int| 0 <= j < sel@.len() && sel@[j] == k;
        assert(issues@.contains_key(sel@[j]));
    }
    while i < keys.len()
        invariant
            i <= keys.len(),
            r@.len() == i,
            forall|k: u32| #[trigger] keys@.contains(k) ==> issues@.contains_key(k),
            forall|j: int| 0 <= j < i ==> *#[trigger] r@[j] == issues@[keys@[j]],
        decreases keys.len() - i,
    {
        assert(keys@.contains(keys@[i as int]));
        match issues.get(&keys[i]) {
            Some(issue) => {
                r.push(issue);
            },
            None => {
                assert(false);
            },
        }
        i += 1;
    }
    proof {
        assert forall|j: int| 0 <= j < keys@.len() implies issues@.contains_key(
            #[trigger] keys@[j],
        ) && *r@[j] == issues@[keys@[j]] by {
            assert(keys@.contains(keys@[j]));
        }
        assert forall|a: int, b: int| 0 <= a < b < r@.len() implies in_order_by(
            ranked,
            *#[trigger] r@[a],
            *#[trigger] r@[b],
        ) by {
            assert(in_order_by(ranked, issues@[keys@[a]], issues@[keys@[b]]));
        }
    }
    (r, Ghost(keys@))
}

/// The level that lies `d` levels below `level` in the hierarchy.
pub open spec fn level_below(m: Map<u32, Issue>, level: Seq<u32>, d: nat) -> Seq<u32>
    decreases d,
{
    if d == 0 {
        level
    } else {
        level_below(m, expand(m, level), (d - 1) as nat)
    }
}

/// Each id of `w` lists the next one as a child.
pub open spec fn is_child_walk(m: Map<u32, Issue>, w: Seq<u32>) -> bool {
    forall|i: int| 0 <= i < w.len() - 1 ==> children(m, #[trigger] w[i]).contains(w[i + 1])
}

/// No walk over at least one child edge ends where it starts.
pub open spec fn hierarchy_acyclic(m: Map<u32, Issue>) -> bool {
    !exists|w: Seq<u32>| w.len() >= 2 && is_child_walk(m, w) && w[0] == w.last()
}

proof fn lemma_expand_member(m: Map<u32, Issue>, level: Seq<u32>, x: u32)
    requires
        expand(m, level).contains(x),
    ensures
        exists|y: u32| level.contains(y) && #[trigger] children(m, y).contains(x),
    decreases level.len(),
{
    if level.len() > 0 {
        let init = level.drop_last();
        let e = expand(m, level);
        let p = choose|p: int| 0 <= p < e.len() && e[p] == x;
        if p < expand(m, init).len() {
            assert(expand(m, init)[p] == x);
            lemma_expand_member(m, init, x);
            let y = choose|y: u32| init.contains(y) && #[trigger] children(m, y).contains(x);
            let q = choose|q: int| 0 <= q < init.len() && init[q] == y;
            assert(level[q] == y);
        } else {
            let c = children(m, level.last());
            assert(c[p - expand(m, init).len()] == x);
            assert(level[level.len() - 1] == level.last());
            assert(c.contains(x));
        }
    }
}

proof fn lemma_level_below_last(m: Map<u32, Issue>, level: Seq<u32>, d: nat)
    ensures
        level_below(m, level, d + 1) == expand(m, level_below(m, level, d)),
    decreases d,
{
    if d > 0 {
        lemma_level_below_last(m, expand(m, level), (d - 1) as nat);
    } else {
        assert(level_below(m, expand(m, level), 0) == expand(m, level));
    }
}

proof fn lemma_chain(m: Map<u32, Issue>, level: Seq<u32>, d: nat, x: u32)
    requires
        level_below(m, level, d).contains(x),
    ensures
        exists|w: Seq<u32>|
            w.len() == d + 1 && level.contains(w[0]) && w.last() == x && #[trigger] is_child_walk(
                m,
                w,
            ),
    decreases d,
{
    if d == 0 {
        let w = seq![x];
        assert(w[0] == x);
        assert(is_child_walk(m, w));
    } else {
        lemma_level_below_last(m, level, (d - 1) as nat);
        lemma_expand_member(m, level_below(m, level, (d - 1) as nat), x);
        let y = choose|y: u32|
            level_below(m, level, (d - 1) as nat).contains(y) && #[trigger] children(m, y).contains(
                x,
            );
        lemma_chain(m, level, (d - 1) as nat, y);
        let v = choose|v: Seq<u32>|
            v.len() == d && level.contains(v[0]) && v.last() == y && #[trigger] is_child_walk(m, v);
        let w = v.push(x);
        assert forall|i: int| 0 <= i < w.len() - 1 implies children(m, #[trigger] w[i]).contains(
            w[i + 1],
        ) by {
            if i < v.len() - 1 {
                assert(w[i] == v[i]);
                assert(w[i + 1] == v[i + 1]);
            } else {
                assert(w[i] == y);
                assert(w[i + 1] == x);
            }
        }
        assert(w[0] == v[0]);
        assert(is_child_walk(m, w));
    }
}

proof fn lemma_long_walk_cycles(m: Map<u32, Issue>, w: Seq<u32>)
    requires
        m.dom().finite(),
        is_child_walk(m, w),
        w.len() >= m.dom().len() + 2,
    ensures
        !hierarchy_acyclic(m),
{
    let p = w.take(w.len() - 1);
    assert forall|x: u32| p.to_set().contains(x) implies m.dom().contains(x) by {
        let i = choose|i: int| 0 <= i < p.len() && p[i] == x;
        assert(p[i] == w[i]);
        assert(children(m, w[i]).contains(w[i + 1]));
    }
    if p.no_duplicates() {
        p.unique_seq_to_set();
        vstd::set_lib::lemma_len_subset(p.to_set(), m.dom());
    }
    let (a, b) = choose|a: int, b: int|
        0 <= a < p.len() && 0 <= b < p.len() && a != b && p[a] == p[b];
    let i = if a < b {
        a
    } else {
        b
    };
    let j = if a < b {
        b
    } else {
        a
    };
    let c = w.subrange(i, j + 1);
    assert(c[0] == w[i]);
    assert(c.last() == w[j]);
    assert(p[i] == w[i]);
    assert(p[j] == w[j]);
    assert forall|k: int| 0 <= k < c.len() - 1 implies children(m, #[trigger] c[k]).contains(
        c[k + 1],
    ) by {
        assert(c[k] == w[i + k]);
        assert(c[k + 1] == w[i + k + 1]);
    }
    assert(c.len() >= 2 && is_child_walk(m, c) && c[0] == c.last());
}

proof fn lemma_traversal_extend(
    m: Map<u32, Issue>,
    level: Seq<u32>,
    d: nat,
    rounds: nat,
    more: nat,
)
    requires
        level_below(m, level, rounds).len() == 0,
    ensures
        traversal(m, level, d, rounds) == traversal(m, level, d, rounds + more),
    decreases rounds,
{
    if rounds > 0 && level.len() > 0 {
        lemma_traversal_extend(m, expand(m, level), d + 1, (rounds - 1) as nat, more);
    }
}

/// In a hierarchy without a cycle the listing is complete: one level more
/// than the store has records holds every id below the root, and listing
/// further levels adds nothing.
pub proof fn lemma_epic_walk_complete(m: Map<u32, Issue>, root: u32, more: nat)
    requires
        m.dom().finite(),
        hierarchy_acyclic(m),
    ensures
        level_below(m, seq![root], m.dom().len() + 1).len() == 0,
        epic_walk(m, root) == traversal(m, seq![root], 0, m.dom().len() + 1 + more),
{
    let n = m.dom().len();
    let last = level_below(m, seq![root], n + 1);
    if last.len() > 0 {
        let x = last[0];
        assert(last.contains(x));
        lemma_chain(m, seq![root], n + 1, x);
        let w = choose|w: Seq<u32>|
            w.len() == n + 2 && seq![root].contains(w[0]) && w.last() == x
                && #[trigger] is_child_walk(m, w);
        lemma_long_walk_cycles(m, w);
    }
    lemma_traversal_extend(m, seq![root], 0, n + 1, more);
}

/// The key `a` stands before the key `b`: by the priority rank of their
/// records, then by the keys themselves.
pub open spec fn key_before(m: Map<u32, Issue>, a: u32, b: u32) -> bool {
    ||| priority_rank(m[a].priority@) < priority_rank(m[b].priority@)
    ||| (priority_rank(m[a].priority@) == priority_rank(m[b].priority@) && a < b)
}

/// Each key stands before all later ones.
pub open spec fn keys_sorted(m: Map<u32, Issue>, ks: Seq<u32>) -> bool {
    forall|i: int, j: int| 0 <= i < j < ks.len() ==> key_before(m, #[trigger] ks[i], #[trigger] ks[j])
}

proof fn lemma_sorted_keys_unique(m: Map<u32, Issue>, a: Seq<u32>, b: Seq<u32>)
    requires
        keys_sorted(m, a),
        keys_sorted(m, b),
        forall|k: u32| a.contains(k) <==> b.contains(k),
    ensures
        a == b,
    decreases a.len(),
{
    if a.len() == 0 {
        if b.len() > 0 {
            assert(b.contains(b[0]));
        }
        assert(a =~= b);
    } else {
        assert(a.contains(a[0]));
        assert(b.contains(a[0]));
        let jb = choose|j: int| 0 <= j < b.len() && b[j] == a[0];
        assert(b.contains(b[0]));
        assert(a.contains(b[0]));
        let ja = choose|j: int| 0 <= j < a.len() && a[j] == b[0];
        if ja > 0 && jb > 0 {
            assert(key_before(m, a[0], a[ja]));
            assert(key_before(m, b[0], b[jb]));
        }
        assert(a[0] == b[0]);
        let ta = a.drop_first();
        let tb = b.drop_first();
        assert forall|i: int, j: int| 0 <= i < j < ta.len() implies key_before(
            m,
            #[trigger] ta[i],
            #[trigger] ta[j],
        ) by {
            assert(ta[i] == a[i + 1]);
            assert(ta[j] == a[j + 1]);
        }
        assert forall|i: int, j: int| 0 <= i < j < tb.len() implies key_before(
            m,
            #[trigger] tb[i],
            #[trigger] tb[j],
        ) by {
            assert(tb[i] == b[i + 1]);
            assert(tb[j] == b[j + 1]);
        }
        assert forall|k: u32| ta.contains(k) <==> tb.contains(k) by {
            if ta.contains(k) {
                let i = choose|i: int| 0 <= i < ta.len() && ta[i] == k;
                assert(a[i + 1] == k);
                assert(key_before(m, a[0], a[i + 1]));
                assert(a.contains(k));
                assert(b.contains(k));
                let j = choose|j: int| 0 <= j < b.len() && b[j] == k;
                assert(j > 0);
                assert(tb[j - 1] == k);
            }
            if tb.contains(k) {
                let i = choose|i: int| 0 <= i < tb.len() && tb[i] == k;
                assert(b[i + 1] == k);
                assert(key_before(m, b[0], b[i + 1]));
                assert(b.contains(k));
                assert(a.contains(k));
                let j = choose|j: int| 0 <= j < a.len() && a[j] == k;
                assert(j > 0);
                assert(ta[j - 1] == k);
            }
        }
        lemma_sorted_keys_unique(m, ta, tb);
        assert(a =~= seq![a[0]] + ta);
        assert(b =~= seq![b[0]] + tb);
    }
}

/// In a store where every record stands under its own id, the list of ready
/// tasks is determined: two lists that both hold the ready records in
/// priority order are the same list.
pub proof fn lemma_ready_unique(
    m: Map<u32, Issue>,
    exclude_epics: bool,
    k1: Seq<u32>,
    o1: Seq<&Issue>,
    k2: Seq<u32>,
    o2: Seq<&Issue>,
)
    requires
        store_wf(m),
        lists_ready(m, exclude_epics, k1, o1),
        lists_ready(m, exclude_epics, k2, o2),
    ensures
        k1 == k2,
        o1.len() == o2.len(),
        forall|i: int| 0 <= i < o1.len() ==> *#[trigger] o1[i] == *o2[i],
{
    assert forall|i: int, j: int| 0 <= i < j < k1.len() implies key_before(
        m,
        #[trigger] k1[i],
        #[trigger] k1[j],
    ) by {
        assert(in_order(*o1[i], *o1[j]));
        assert(m[k1[i]].id == k1[i]);
        assert(m[k1[j]].id == k1[j]);
    }
    assert forall|i: int, j: int| 0 <= i < j < k2.len() implies key_before(
        m,
        #[trigger] k2[i],
        #[trigger] k2[j],
    ) by {
        assert(in_order(*o2[i], *o2[j]));
        assert(m[k2[i]].id == k2[i]);
        assert(m[k2[j]].id == k2[j]);
    }
    assert forall|k: u32| k1.contains(k) <==> k2.contains(k) by {}
    lemma_sorted_keys_unique(m, k1, k2);
    assert forall|i: int| 0 <= i < o1.len() implies *#[trigger] o1[i] == *o2[i] by {
        assert(m.contains_key(k1[i]) && *o1[i] == m[k1[i]]);
        assert(m.contains_key(k2[i]) && *o2[i] == m[k2[i]]);
    }
}

/// `w` is a walk along child edges that starts at `root`.
pub open spec fn is_path_from(m: Map<u32, Issue>, root: u32, w: Seq<u32>) -> bool {
    w.len() >= 1 && w[0] == root && is_child_walk(m, w)
}

/// The hierarchy under `root` is a tree: no two walks from the root end at
/// one id, and no record that a walk reaches lists a child twice. An id
/// that is reached may lack a record.
pub open spec fn is_tree(m: Map<u32, Issue>, root: u32) -> bool {
    &&& forall|v: Seq<u32>, w: Seq<u32>|
        #[trigger] is_path_from(m, root, v) && #[trigger] is_path_from(m, root, w) && v.last()
            == w.last() ==> v == w
    &&& forall|w: Seq<u32>| #[trigger] is_path_from(m, root, w) ==> children(m, w.last()).no_duplicates()
}

/// The ids of a listing, without their depths.
pub open spec fn ids_of(t: Seq<(u32, nat)>) -> Seq<u32> {
    t.map_values(|e: (u32, nat)| e.0)
}

/// Index in `level` of the parent of the `k`-th id of the next level.
pub open spec fn parent_of(m: Map<u32, Issue>, level: Seq<u32>, k: int) -> int
    decreases level.len(),
{
    if level.len() == 0 {
        0
    } else if k < expand(m, level.drop_last()).len() {
        parent_of(m, level.drop_last(), k)
    } else {
        level.len() - 1
    }
}

/// Index, in the list of its parent's children, of the `k`-th id of the
/// next level.
pub open spec fn child_of(m: Map<u32, Issue>, level: Seq<u32>, k: int) -> int
    decreases level.len(),
{
    if level.len() == 0 {
        0
    } else if k < expand(m, level.drop_last()).len() {
        child_of(m, level.drop_last(), k)
    } else {
        k - expand(m, level.drop_last()).len()
    }
}

/// Every id of the next level is a child of an id of this level, at the
/// place that `parent_of` and `child_of` name.
pub proof fn lemma_expand_index(m: Map<u32, Issue>, level: Seq<u32>, k: int)
    requires
        0 <= k < expand(m, level).len(),
    ensures
        0 <= parent_of(m, level, k) < level.len(),
        0 <= child_of(m, level, k) < children(m, level[parent_of(m, level, k)]).len(),
        expand(m, level)[k] == children(m, level[parent_of(m, level, k)])[child_of(m, level, k)],
    decreases level.len(),
{
    if level.len() > 0 {
        let init = level.drop_last();
        if k < expand(m, init).len() {
            lemma_expand_index(m, init, k);
            assert(level[parent_of(m, init, k)] == init[parent_of(m, init, k)]);
            assert(expand(m, level)[k] == expand(m, init)[k]);
        } else {
            assert(level[level.len() - 1] == level.last());
        }
    }
}

/// The next level keeps the order: the children of an earlier id stand
/// before those of a later one, and the children of one id stand in the
/// order of its list.
pub proof fn lemma_expand_order(m: Map<u32, Issue>, level: Seq<u32>, a: int, b: int)
    requires
        0 <= a < b < expand(m, level).len(),
    ensures
        parent_of(m, level, a) < parent_of(m, level, b) || (parent_of(m, level, a) == parent_of(
            m,
            level,
            b,
        ) && child_of(m, level, a) < child_of(m, level, b)),
    decreases level.len(),
{
    if level.len() > 0 {
        let init = level.drop_last();
        if b < expand(m, init).len() {
            lemma_expand_order(m, init, a, b);
        } else if a < expand(m, init).len() {
            lemma_expand_index(m, init, a);
        }
    }
}

proof fn lemma_expand_contains(m: Map<u32, Issue>, level: Seq<u32>, y: u32, x: u32)
    requires
        level.contains(y),
        children(m, y).contains(x),
    ensures
        expand(m, level).contains(x),
    decreases level.len(),
{
    let init = level.drop_last();
    let e = expand(m, level);
    let p = choose|p: int| 0 <= p < level.len() && level[p] == y;
    if p < level.len() - 1 {
        assert(init[p] == y);
        lemma_expand_contains(m, init, y, x);
        let k = choose|k: int| 0 <= k < expand(m, init).len() && expand(m, init)[k] == x;
        assert(e[k] == x);
    } else {
        let c = choose|c: int| 0 <= c < children(m, y).len() && children(m, y)[c] == x;
        assert(e[expand(m, init).len() + c] == x);
    }
}

proof fn lemma_level_below_empty(m: Map<u32, Issue>, d: nat)
    ensures
        level_below(m, Seq::<u32>::empty(), d).len() == 0,
    decreases d,
{
    if d > 0 {
        assert(expand(m, Seq::<u32>::empty()) =~= Seq::<u32>::empty());
        lemma_level_below_empty(m, (d - 1) as nat);
    }
}

proof fn lemma_path_reaches(m: Map<u32, Issue>, root: u32, w: Seq<u32>)
    requires
        is_path_from(m, root, w),
    ensures
        reaches_in(m, root, w.last(), (w.len() - 1) as nat),
    decreases w.len(),
{
    if w.len() > 1 {
        let v = w.drop_last();
        assert forall|i: int| 0 <= i < v.len() - 1 implies children(m, #[trigger] v[i]).contains(
            v[i + 1],
        ) by {
            assert(v[i] == w[i]);
            assert(v[i + 1] == w[i + 1]);
        }
        assert(v[0] == w[0]);
        lemma_path_reaches(m, root, v);
        assert(v.last() == w[w.len() - 2]);
        assert(children(m, w[w.len() - 2]).contains(w[w.len() - 1]));
    }
}

proof fn lemma_reaches_level(m: Map<u32, Issue>, root: u32, id: u32, d: nat)
    requires
        reaches_in(m, root, id, d),
    ensures
        level_below(m, seq![root], d).contains(id),
    decreases d,
{
    if d == 0 {
        assert(seq![root][0] == id);
    } else {
        let mid = choose|mid: u32|
            reaches_in(m, root, mid, (d - 1) as nat) && #[trigger] children(m, mid).contains(id);
        lemma_reaches_level(m, root, mid, (d - 1) as nat);
        lemma_level_below_last(m, seq![root], (d - 1) as nat);
        lemma_expand_contains(m, level_below(m, seq![root], (d - 1) as nat), mid, id);
    }
}

/// The path from the root to an id of the level `d` below it.
proof fn lemma_level_path(m: Map<u32, Issue>, root: u32, d: nat, x: u32) -> (w: Seq<u32>)
    requires
        level_below(m, seq![root], d).contains(x),
    ensures
        is_path_from(m, root, w),
        w.len() == d + 1,
        w.last() == x,
{
    lemma_chain(m, seq![root], d, x);
    let w = choose|w: Seq<u32>|
        w.len() == d + 1 && seq![root].contains(w[0]) && w.last() == x && #[trigger] is_child_walk(
            m,
            w,
        );
    let i = choose|i: int| 0 <= i < seq![root].len() && seq![root][i] == w[0];
    w
}

proof fn lemma_tree_levels_apart(m: Map<u32, Issue>, root: u32, a: nat, b: nat, x: u32)
    requires
        is_tree(m, root),
        a != b,
        level_below(m, seq![root], a).contains(x),
    ensures
        !level_below(m, seq![root], b).contains(x),
{
    if level_below(m, seq![root], b).contains(x) {
        let v = lemma_level_path(m, root, a, x);
        let w = lemma_level_path(m, root, b, x);
        assert(v == w);
    }
}

proof fn lemma_tree_level_distinct(m: Map<u32, Issue>, root: u32, d: nat)
    requires
        is_tree(m, root),
    ensures
        level_below(m, seq![root], d).no_duplicates(),
    decreases d,
{
    if d == 0 {
    } else {
        let prev = level_below(m, seq![root], (d - 1) as nat);
        lemma_tree_level_distinct(m, root, (d - 1) as nat);
        lemma_level_below_last(m, seq![root], (d - 1) as nat);
        let e = expand(m, prev);
        assert forall|a: int, b: int| 0 <= a < e.len() && 0 <= b < e.len() && a != b implies e[a]
            != e[b] by {
            if e[a] == e[b] {
                let x = e[a];
                lemma_expand_index(m, prev, a);
                lemma_expand_index(m, prev, b);
                if a < b {
                    lemma_expand_order(m, prev, a, b);
                } else {
                    lemma_expand_order(m, prev, b, a);
                }
                let pa = parent_of(m, prev, a);
                let pb = parent_of(m, prev, b);
                let y = prev[pa];
                let z = prev[pb];
                assert(prev.contains(y));
                assert(prev.contains(z));
                let v = lemma_level_path(m, root, (d - 1) as nat, y);
                let w = lemma_level_path(m, root, (d - 1) as nat, z);
                if pa == pb {
                    assert(children(m, y).no_duplicates());
                } else {
                    assert(y != z);
                    let v2 = v.push(x);
                    let w2 = w.push(x);
                    assert(children(m, y).contains(x));
                    assert(children(m, z).contains(x));
                    assert forall|i: int| 0 <= i < v2.len() - 1 implies children(
                        m,
                        #[trigger] v2[i],
                    ).contains(v2[i + 1]) by {
                        if i < v.len() - 1 {
                            assert(v2[i] == v[i] && v2[i + 1] == v[i + 1]);
                        } else {
                            assert(v2[i] == y && v2[i + 1] == x);
                        }
                    }
                    assert forall|i: int| 0 <= i < w2.len() - 1 implies children(
                        m,
                        #[trigger] w2[i],
                    ).contains(w2[i + 1]) by {
                        if i < w.len() - 1 {
                            assert(w2[i] == w[i] && w2[i + 1] == w[i + 1]);
                        } else {
                            assert(w2[i] == z && w2[i + 1] == x);
                        }
                    }
                    assert(v2[0] == v[0] && w2[0] == w[0]);
                    assert(is_path_from(m, root, v2));
                    assert(is_path_from(m, root, w2));
                    assert(v2 == w2);
                    assert(v2[d as int - 1] == y);
                    assert(w2[d as int - 1] == z);
                }
            }
        }
    }
}

proof fn lemma_tree_depth_bound(m: Map<u32, Issue>, root: u32)
    requires
        m.dom().finite(),
        is_tree(m, root),
    ensures
        level_below(m, seq![root], m.dom().len() + 1).len() == 0,
{
    let n = m.dom().len();
    let last = level_below(m, seq![root], n + 1);
    if last.len() > 0 {
        let x = last[0];
        assert(last.contains(x));
        let w = lemma_level_path(m, root, n + 1, x);
        let p = w.take(w.len() - 1);
        assert forall|y: u32| p.to_set().contains(y) implies m.dom().contains(y) by {
            let i = choose|i: int| 0 <= i < p.len() && p[i] == y;
            assert(p[i] == w[i]);
            assert(children(m, w[i]).contains(w[i + 1]));
        }
        if p.no_duplicates() {
            p.unique_seq_to_set();
            vstd::set_lib::lemma_len_subset(p.to_set(), m.dom());
        }
        let (a, b) = choose|a: int, b: int|
            0 <= a < p.len() && 0 <= b < p.len() && a != b && p[a] == p[b];
        let u = w.take(a + 1);
        let v = w.take(b + 1);
        assert forall|i: int| 0 <= i < u.len() - 1 implies children(m, #[trigger] u[i]).contains(
            u[i + 1],
        ) by {
            assert(u[i] == w[i] && u[i + 1] == w[i + 1]);
        }
        assert forall|i: int| 0 <= i < v.len() - 1 implies children(m, #[trigger] v[i]).contains(
            v[i + 1],
        ) by {
            assert(v[i] == w[i] && v[i + 1] == w[i + 1]);
        }
        assert(u[0] == w[0] && v[0] == w[0]);
        assert(u.last() == w[a] && v.last() == w[b]);
        assert(p[a] == w[a] && p[b] == w[b]);
        assert(is_path_from(m, root, u));
        assert(is_path_from(m, root, v));
        assert(u == v);
    }
}

/// Every entry of a listing holds an id of the level that its depth names.
proof fn lemma_traversal_entries(m: Map<u32, Issue>, level: Seq<u32>, d: nat, rounds: nat)
    ensures
        forall|k: int|
            0 <= k < traversal(m, level, d, rounds).len() ==> {
                let e = #[trigger] traversal(m, level, d, rounds)[k];
                d <= e.1 < d + rounds && level_below(m, level, (e.1 - d) as nat).contains(e.0)
            },
    decreases rounds,
{
    if rounds != 0 && level.len() != 0 {
        lemma_traversal_entries(m, expand(m, level), d + 1, (rounds - 1) as nat);
        let t = traversal(m, level, d, rounds);
        let rest = traversal(m, expand(m, level), d + 1, (rounds - 1) as nat);
        assert forall|k: int| 0 <= k < t.len() implies {
            let e = #[trigger] t[k];
            d <= e.1 < d + rounds && level_below(m, level, (e.1 - d) as nat).contains(e.0)
        } by {
            if k < level.len() {
                assert(t[k] == (level[k], d));
                assert(level_below(m, level, 0) == level);
            } else {
                let e = rest[k - level.len()];
                assert(t[k] == e);
                assert(level_below(m, level, (e.1 - d) as nat) == level_below(
                    m,
                    expand(m, level),
                    (e.1 - d - 1) as nat,
                ));
            }
        }
    }
}

/// Every id of a level within the rounds of a listing is listed with the
/// depth of its level.
proof fn lemma_traversal_has(
    m: Map<u32, Issue>,
    level: Seq<u32>,
    d: nat,
    rounds: nat,
    j: nat,
    x: u32,
)
    requires
        j < rounds,
        level_below(m, level, j).contains(x),
    ensures
        traversal(m, level, d, rounds).contains((x, d + j)),
    decreases rounds,
{
    let t = traversal(m, level, d, rounds);
    if level.len() == 0 {
        lemma_level_below_empty(m, j);
        assert(level =~= Seq::<u32>::empty());
    } else if j == 0 {
        let k = choose|k: int| 0 <= k < level.len() && level[k] == x;
        assert(t[k] == (x, d));
    } else {
        let rest = traversal(m, expand(m, level), d + 1, (rounds - 1) as nat);
        lemma_traversal_has(m, expand(m, level), d + 1, (rounds - 1) as nat, (j - 1) as nat, x);
        let k = choose|k: int| 0 <= k < rest.len() && rest[k] == (x, (d + j) as nat);
        assert(t[level.len() + k] == rest[k]);
    }
}

/// The depths of a listing never go down.
pub proof fn lemma_traversal_depths_rise(m: Map<u32, Issue>, level: Seq<u32>, d: nat, rounds: nat)
    ensures
        forall|a: int, b: int|
            0 <= a < b < traversal(m, level, d, rounds).len() ==> (#[trigger] traversal(
                m,
                level,
                d,
                rounds,
            )[a]).1 <= (#[trigger] traversal(m, level, d, rounds)[b]).1,
    decreases rounds,
{
    if rounds != 0 && level.len() != 0 {
        lemma_traversal_depths_rise(m, expand(m, level), d + 1, (rounds - 1) as nat);
        lemma_traversal_entries(m, expand(m, level), d + 1, (rounds - 1) as nat);
        let t = traversal(m, level, d, rounds);
        let rest = traversal(m, expand(m, level), d + 1, (rounds - 1) as nat);
        assert forall|a: int, b: int| 0 <= a < b < t.len() implies (#[trigger] t[a]).1 <= (
        #[trigger] t[b]).1 by {
            if a < level.len() {
                assert(t[a] == (level[a], d));
            } else {
                assert(t[a] == rest[a - level.len()]);
            }
            if b < level.len() {
                assert(t[b] == (level[b], d));
            } else {
                assert(t[b] == rest[b - level.len()]);
            }
        }
    }
}

/// The levels below `level` hold no id twice, neither in one level nor in two.
pub open spec fn levels_distinct(m: Map<u32, Issue>, level: Seq<u32>) -> bool {
    &&& forall|j: nat| (#[trigger] level_below(m, level, j)).no_duplicates()
    &&& forall|a: nat, b: nat, x: u32|
        a != b && #[trigger] level_below(m, level, a).contains(x) ==> !#[trigger] level_below(
            m,
            level,
            b,
        ).contains(x)
}

proof fn lemma_traversal_distinct(m: Map<u32, Issue>, level: Seq<u32>, d: nat, rounds: nat)
    requires
        levels_distinct(m, level),
    ensures
        ids_of(traversal(m, level, d, rounds)).no_duplicates(),
    decreases rounds,
{
    let t = traversal(m, level, d, rounds);
    if rounds != 0 && level.len() != 0 {
        let next = expand(m, level);
        let rest = traversal(m, next, d + 1, (rounds - 1) as nat);
        assert forall|j: nat| (#[trigger] level_below(m, next, j)).no_duplicates() by {
            assert(level_below(m, next, j) == level_below(m, level, j + 1));
        }
        assert forall|a: nat, b: nat, x: u32|
            a != b && #[trigger] level_below(m, next, a).contains(x) implies !#[trigger] level_below(
            m,
            next,
            b,
        ).contains(x) by {
            assert(level_below(m, next, a) == level_below(m, level, a + 1));
            assert(level_below(m, next, b) == level_below(m, level, b + 1));
        }
        lemma_traversal_distinct(m, next, d + 1, (rounds - 1) as nat);
        lemma_traversal_entries(m, next, d + 1, (rounds - 1) as nat);
        assert(level_below(m, level, 0) == level);
        let ids = ids_of(t);
        assert forall|a: int, b: int| 0 <= a < ids.len() && 0 <= b < ids.len() && a != b implies ids[a]
            != ids[b] by {
            let lo = if a < b {
                a
            } else {
                b
            };
            let hi = if a < b {
                b
            } else {
                a
            };
            if hi < level.len() {
                assert(t[lo] == (level[lo], d));
                assert(t[hi] == (level[hi], d));
            } else if lo >= level.len() {
                assert(t[lo] == rest[lo - level.len()]);
                assert(t[hi] == rest[hi - level.len()]);
                assert(ids_of(rest)[lo - level.len()] == rest[lo - level.len()].0);
                assert(ids_of(rest)[hi - level.len()] == rest[hi - level.len()].0);
            } else {
                assert(t[lo] == (level[lo], d));
                let e = rest[hi - level.len()];
                assert(t[hi] == e);
                assert(level_below(m, next, (e.1 - d - 1) as nat) == level_below(
                    m,
                    level,
                    (e.1 - d) as nat,
                ));
                assert(level_below(m, level, 0).contains(level[lo]));
            }
        }
    }
}

/// In a tree the listing holds every id below the root exactly once, with
/// the number of edges of its path as its depth, and no other id; and the
/// depths of the listing never go down.
pub proof fn lemma_epic_walk_tree(m: Map<u32, Issue>, root: u32)
    requires
        m.dom().finite(),
        is_tree(m, root),
    ensures
        ids_of(epic_walk(m, root)).no_duplicates(),
        forall|id: u32, d: nat|
            #[trigger] reaches_in(m, root, id, d) ==> epic_walk(m, root).contains((id, d)),
        forall|k: int|
            0 <= k < epic_walk(m, root).len() ==> reaches_in(
                m,
                root,
                (#[trigger] epic_walk(m, root)[k]).0,
                epic_walk(m, root)[k].1,
            ),
        forall|a: int, b: int|
            0 <= a < b < epic_walk(m, root).len() ==> (#[trigger] epic_walk(m, root)[a]).1 <= (
            #[trigger] epic_walk(m, root)[b]).1,
{
    let n = m.dom().len();
    let start = seq![root];
    assert forall|j: nat| (#[trigger] level_below(m, start, j)).no_duplicates() by {
        lemma_tree_level_distinct(m, root, j);
    }
    assert forall|a: nat, b: nat, x: u32|
        a != b && #[trigger] level_below(m, start, a).contains(x) implies !#[trigger] level_below(
        m,
        start,
        b,
    ).contains(x) by {
        lemma_tree_levels_apart(m, root, a, b, x);
    }
    lemma_traversal_distinct(m, start, 0, n + 1);
    lemma_traversal_depths_rise(m, start, 0, n + 1);
    lemma_epic_walk_depths(m, root);
    lemma_tree_depth_bound(m, root);
    assert forall|id: u32, d: nat| #[trigger] reaches_in(m, root, id, d) implies epic_walk(
        m,
        root,
    ).contains((id, d)) by {
        lemma_reaches_level(m, root, id, d);
        if d >= n + 1 {
            lemma_level_below_sum(m, start, n + 1, (d - n - 1) as nat);
            lemma_level_below_empty(m, (d - n - 1) as nat);
            assert(level_below(m, start, n + 1) =~= Seq::<u32>::empty());
        }
        lemma_traversal_has(m, start, 0, n + 1, d, id);
    }
}

proof fn lemma_level_below_sum(m: Map<u32, Issue>, level: Seq<u32>, a: nat, b: nat)
    ensures
        level_below(m, level, a + b) == level_below(m, level_below(m, level, a), b),
    decreases a,
{
    if a > 0 {
        lemma_level_below_sum(m, expand(m, level), (a - 1) as nat, b);
    }
}

} // verus!
