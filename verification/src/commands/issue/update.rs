//! Updating an issue: replacing fields, adding a dependency or a label, and
//! appending a comment to the body.

use vstd::prelude::*;
use crate::issues::frontmatter::escaped;
use crate::issues::frontmatter::escape_yaml_str;
use crate::issues::models::{label_views, opt_text, Issue, Label, LabelModel};
use crate::number::{ascending, holds_number, sorted_numbers};
use crate::text::{
    chars_of, contains, contains_of, copy_of, find, find_from, find_in, find_last, find_last_in,
    insert_at, lemma_find_from, occurs_at, push_all, push_str, same, split_once, split_once_of,
    string_of, trim, trim_of,
};
use crate::text_laws::lemma_find_is;

verus! {

/// Arguments of the command that updates an issue.
#[derive(Debug, Clone)]
pub struct UpdateArgs {
    pub id_or_slug: String,
    pub status: Option<String>,
    pub priority: Option<String>,
    pub assignee: Option<String>,
    pub milestone: Option<String>,
    pub points: Option<u32>,
    pub due: Option<String>,
    pub add_dep: Option<u32>,
    pub add_label: Option<String>,
    pub parent: Option<u32>,
    pub add_comment: Option<String>,
    pub author: Option<String>,
}

/// The record of one comment in the fenced block: author, date and body.
pub open spec fn comment_entry(author: Seq<char>, date: Seq<char>, text: Seq<char>) -> Seq<char> {
    "- author: \""@ + escaped(author) + "\"\n  date: \""@ + date + "\"\n  body: \""@ + escaped(text)
        + "\"\n"@
}

/// Where a new record goes into a body that has a Comments section: just
/// before the fence that closes the block that `\`\`\`yaml` opens; where
/// there is no such block, just before the last fence of the body.
pub open spec fn fence_position(body: Seq<char>) -> Option<int> {
    match find(body, "```yaml"@) {
        Some(i) => match find_from(body, "\n```"@, i + "```yaml"@.len()) {
            Some(c) => Some(c + 1),
            None => find_last(body, "```"@),
        },
        None => find_last(body, "```"@),
    }
}

/// The body with a comment record appended. A body without a Comments
/// section gets one: the heading, the opening fence, the record and the
/// closing fence. In a body with one, the record goes just before the
/// closing fence, so that records stand in the order in which they came.
pub open spec fn with_comment(body: Seq<char>, entry: Seq<char>) -> Seq<char> {
    if !contains(body, "## Comments"@) {
        body + (if trim(body).len() > 0 {
            "\n\n"@
        } else {
            Seq::empty()
        }) + "## Comments\n\n```yaml\n"@ + entry + "```\n"@
    } else {
        match fence_position(body) {
            Some(p) => body.take(p) + entry + body.skip(p),
            None => body + entry,
        }
    }
}

/// The record of one comment.
fn comment_entry_of(author: &str, date: &str, text: &str) -> (r: Vec<char>)
    ensures
        r@ == comment_entry(author@, date@, text@),
{
    let mut r = chars_of("- author: \"");
    push_all(&mut r, &escape_yaml_str(&chars_of(author)));
    push_str(&mut r, "\"\n  date: \"");
    push_str(&mut r, date);
    push_str(&mut r, "\"\n  body: \"");
    push_all(&mut r, &escape_yaml_str(&chars_of(text)));
    push_str(&mut r, "\"\n");
    r
}

/// Where a new record goes into a body that has a Comments section.
fn fence_position_of(body: &Vec<char>) -> (r: Option<usize>)
    ensures
        match fence_position(body@) {
            Some(p) => r matches Some(x) && x == p && p <= body.len(),
            None => r is None,
        },
{
    let open = chars_of("```yaml");
    let close = chars_of("\n```");
    let fence = chars_of("```");
    proof {
        reveal_strlit("\n```");
    }
    match find_in(body, &open, 0) {
        Some(i) => match find_in(body, &close, i + open.len()) {
            Some(c) => Some(c + 1),
            None => find_last_in(body, &fence),
        },
        None => find_last_in(body, &fence),
    }
}

/// Appends a comment to the body of an issue, in the fenced block of its
/// Comments section.
pub fn append_comment(body: &mut String, author: &str, date: &str, text: &str)
    ensures
        final(body)@ == with_comment(old(body)@, comment_entry(author@, date@, text@)),
{
    let entry = comment_entry_of(author, date, text);
    let b = chars_of(body.as_str());
    let heading = chars_of("## Comments");
    if !contains_of(&b, &heading) {
        let mut out = copy_of(&b);
        let t = trim_of(&b);
        if t.len() > 0 {
            push_str(&mut out, "\n\n");
        } else {
            assert(out@ =~= b@ + Seq::<char>::empty());
        }
        push_str(&mut out, "## Comments\n\n```yaml\n");
        push_all(&mut out, &entry);
        push_str(&mut out, "```\n");
        *body = string_of(&out);
        return ;
    }
    match fence_position_of(&b) {
        Some(p) => {
            let out = insert_at(&b, p, &entry);
            *body = string_of(&out);
        },
        None => {
            let mut out = copy_of(&b);
            push_all(&mut out, &entry);
            *body = string_of(&out);
        },
    }
}

/// The label that an argument `name` or `name:color` names.
pub open spec fn label_of_arg(arg: Seq<char>) -> LabelModel {
    match split_once(arg, ':') {
        Some(p) => LabelModel { name: p.0, color: Some(p.1) },
        None => LabelModel { name: arg, color: None },
    }
}

/// One of the labels has the name `name`.
pub open spec fn has_label(labels: Seq<LabelModel>, name: Seq<char>) -> bool {
    exists|i: int| 0 <= i < labels.len() && (#[trigger] labels[i]).name == name
}

/// The labels with the one that `arg` names added, unless one of that name
/// is among them.
pub open spec fn with_label(labels: Seq<LabelModel>, arg: Seq<char>) -> Seq<LabelModel> {
    if has_label(labels, label_of_arg(arg).name) {
        labels
    } else {
        labels.push(label_of_arg(arg))
    }
}

/// The label that an argument `name` or `name:color` names.
pub fn parse_label_arg(arg: &str) -> (r: Label)
    ensures
        r@ == label_of_arg(arg@),
{
    let a = chars_of(arg);
    match split_once_of(&a, ':') {
        Some(p) => Label { name: string_of(&p.0), color: Some(string_of(&p.1)) },
        None => Label { name: string_of(&a), color: None },
    }
}

/// Adds the label that `arg` names, unless one of that name is there.
pub fn add_label(labels: &mut Vec<Label>, arg: &str)
    ensures
        label_views(final(labels)@) == with_label(label_views(old(labels)@), arg@),
{
    let label = parse_label_arg(arg);
    let name = chars_of(label.name.as_str());
    let mut i: usize = 0;
    let ghost lv = label_views(labels@);
    while i < labels.len()
        invariant
            i <= labels.len(),
            labels@ == old(labels)@,
            lv == label_views(labels@),
            name@ == label_of_arg(arg@).name,
            forall|j: int| 0 <= j < i ==> (#[trigger] lv[j]).name != name@,
        decreases labels.len() - i,
    {
        let n = chars_of(labels[i].name.as_str());
        assert(lv[i as int] == labels@[i as int]@);
        if same(&n, &name) {
            assert(lv[i as int].name == name@);
            return ;
        }
        i += 1;
    }
    let ghost model = label@;
    labels.push(label);
    assert(label_views(labels@) =~= lv.push(model));
}

/// Adds a number to a list of ids, unless it is there: the list is then put
/// in ascending order.
pub fn add_id(ids: &mut Vec<u32>, id: u32)
    ensures
        old(ids)@.contains(id) ==> final(ids)@ == old(ids)@,
        !old(ids)@.contains(id) ==> ascending(final(ids)@) && final(ids)@.to_multiset() == old(
            ids,
        )@.push(id).to_multiset(),
{
    if !holds_number(ids, id) {
        ids.push(id);
        let sorted = sorted_numbers(ids);
        *ids = sorted;
    }
}

/// A copy of a string.
pub fn copy_string(s: &String) -> (r: String)
    ensures
        r@ == s@,
{
    string_of(&chars_of(s.as_str()))
}

/// The new value where one is given, else the old one.
pub open spec fn replaced(old_value: Seq<char>, new_value: Option<String>) -> Seq<char> {
    match new_value {
        Some(v) => v@,
        None => old_value,
    }
}

/// The new value where one is given, else the old one.
pub open spec fn replaced_opt(old_value: Option<String>, new_value: Option<String>) -> Option<
    Seq<char>,
> {
    match new_value {
        Some(v) => Some(v@),
        None => opt_text(old_value),
    }
}

/// Applies an update to an issue: each field that the arguments give
/// replaces the old one; a dependency and a label are added unless they are
/// there; a comment is appended to the body under `author`, dated
/// `comment_date`; and `updated_at` is set to `now`, whatever else changed.
/// The id, the title, the slug, the type, the children and `created_at` stay.
pub fn apply_update(
    issue: &mut Issue,
    args: &UpdateArgs,
    author: &str,
    comment_date: &str,
    now: &str,
)
    ensures
        final(issue).id == old(issue).id,
        final(issue).title@ == old(issue).title@,
        final(issue).slug@ == old(issue).slug@,
        final(issue).issue_type@ == old(issue).issue_type@,
        final(issue).epic_children@ == old(issue).epic_children@,
        final(issue).created_at@ == old(issue).created_at@,
        final(issue).status@ == replaced(old(issue).status@, args.status),
        final(issue).priority@ == replaced(old(issue).priority@, args.priority),
        opt_text(final(issue).assignee) == replaced_opt(old(issue).assignee, args.assignee),
        opt_text(final(issue).milestone) == replaced_opt(old(issue).milestone, args.milestone),
        opt_text(final(issue).due) == replaced_opt(old(issue).due, args.due),
        final(issue).points == (match args.points {
            Some(p) => Some(p),
            None => old(issue).points,
        }),
        final(issue).parent == (match args.parent {
            Some(p) => Some(p),
            None => old(issue).parent,
        }),
        match args.add_dep {
            Some(d) => if old(issue).dependencies@.contains(d) {
                final(issue).dependencies@ == old(issue).dependencies@
            } else {
                ascending(final(issue).dependencies@) && final(issue).dependencies@.to_multiset()
                    == old(issue).dependencies@.push(d).to_multiset()
            },
            None => final(issue).dependencies@ == old(issue).dependencies@,
        },
        label_views(final(issue).labels@) == (match args.add_label {
            Some(l) => with_label(label_views(old(issue).labels@), l@),
            None => label_views(old(issue).labels@),
        }),
        final(issue).body@ == (match args.add_comment {
            Some(c) => with_comment(old(issue).body@, comment_entry(author@, comment_date@, c@)),
            None => old(issue).body@,
        }),
        final(issue).updated_at@ == now@,
{
    match &args.status {
        Some(s) => {
            issue.status = copy_string(s);
        },
        None => {},
    }
    match &args.priority {
        Some(p) => {
            issue.priority = copy_string(p);
        },
        None => {},
    }
    match &args.assignee {
        Some(a) => {
            issue.assignee = Some(copy_string(a));
        },
        None => {},
    }
    match &args.milestone {
        Some(m) => {
            issue.milestone = Some(copy_string(m));
        },
        None => {},
    }
    match args.points {
        Some(p) => {
            issue.points = Some(p);
        },
        None => {},
    }
    match &args.due {
        Some(d) => {
            issue.due = Some(copy_string(d));
        },
        None => {},
    }
    match args.add_dep {
        Some(d) => {
            add_id(&mut issue.dependencies, d);
        },
        None => {},
    }
    match &args.add_label {
        Some(l) => {
            add_label(&mut issue.labels, l.as_str());
        },
        None => {},
    }
    match args.parent {
        Some(p) => {
            issue.parent = Some(p);
        },
        None => {},
    }
    match &args.add_comment {
        Some(c) => {
            append_comment(&mut issue.body, author, comment_date, c.as_str());
        },
        None => {},
    }
    issue.updated_at = string_of(&chars_of(now));
}

/// A comment as it is appended: author, date and text.
pub struct Remark {
    pub author: Seq<char>,
    pub date: Seq<char>,
    pub text: Seq<char>,
}

/// The record of a comment.
pub open spec fn remark_entry(r: Remark) -> Seq<char> {
    comment_entry(r.author, r.date, r.text)
}

/// The records of the comments, one after the other.
pub open spec fn remark_entries(rs: Seq<Remark>) -> Seq<char>
    decreases rs.len(),
{
    if rs.len() == 0 {
        Seq::empty()
    } else {
        remark_entries(rs.drop_last()) + remark_entry(rs.last())
    }
}

/// The body after the comments were appended to it, one after the other.
pub open spec fn with_comments(body: Seq<char>, rs: Seq<Remark>) -> Seq<char>
    decreases rs.len(),
{
    if rs.len() == 0 {
        body
    } else {
        with_comment(with_comments(body, rs.drop_last()), remark_entry(rs.last()))
    }
}

/// What stands between a body and the Comments section that is added to it.
pub open spec fn section_gap(body: Seq<char>) -> Seq<char> {
    if trim(body).len() > 0 {
        "\n\n"@
    } else {
        Seq::empty()
    }
}

/// No newline of the text has a fence after it.
pub open spec fn no_fence_line(s: Seq<char>) -> bool {
    forall|q: int| !occurs_at(s, "\n```"@, q)
}

proof fn lemma_entry_ends(r: Remark)
    ensures
        remark_entry(r).len() > 0,
        remark_entry(r)[0] == '-',
        remark_entry(r).last() == '\n',
{
    reveal_strlit("- author: \"");
    reveal_strlit("\"\n");
    let e = remark_entry(r);
    assert(e[0] == "- author: \""@[0]);
    assert(e.last() == "\"\n"@[1]);
}

proof fn lemma_entries_shape(rs: Seq<Remark>)
    requires
        forall|i: int| 0 <= i < rs.len() ==> no_fence_line(remark_entry(#[trigger] rs[i])),
    ensures
        no_fence_line(remark_entries(rs)),
        rs.len() > 0 ==> remark_entries(rs).len() > 0 && remark_entries(rs)[0] == '-'
            && remark_entries(rs).last() == '\n',
    decreases rs.len(),
{
    reveal_strlit("\n```");
    let pat = "\n```"@;
    if rs.len() > 0 {
        let init = rs.drop_last();
        assert forall|i: int| 0 <= i < init.len() implies no_fence_line(
            remark_entry(#[trigger] init[i]),
        ) by {
            assert(init[i] == rs[i]);
        }
        lemma_entries_shape(init);
        let a = remark_entries(init);
        let e = remark_entry(rs.last());
        assert(rs.last() == rs[rs.len() - 1]);
        lemma_entry_ends(rs.last());
        let c = a + e;
        if init.len() > 0 {
            assert(c[0] == a[0]);
        } else {
            assert(a =~= Seq::<char>::empty());
            assert(c[0] == e[0]);
        }
        assert(c.last() == e.last());
        assert forall|q: int| !occurs_at(c, pat, q) by {
            if occurs_at(c, pat, q) {
                let w = c.subrange(q, q + 4);
                assert(w[0] == c[q] && w[1] == c[q + 1] && w[2] == c[q + 2] && w[3] == c[q + 3]);
                if q + 4 <= a.len() {
                    assert(a.subrange(q, q + 4) =~= w);
                    assert(occurs_at(a, pat, q));
                } else if q >= a.len() {
                    assert(e.subrange(q - a.len(), q - a.len() + 4) =~= w);
                    assert(occurs_at(e, pat, q - a.len()));
                } else {
                    assert(a.len() > 0);
                    assert(c[a.len() - 1] == a.last());
                    assert(c[a.len() as int] == e[0]);
                }
            }
        }
    } else {
        assert forall|q: int| !occurs_at(remark_entries(rs), pat, q) by {}
    }
}

proof fn lemma_append_step(body: Seq<char>, c: Seq<char>, e: Seq<char>)
    requires
        !contains(body, "```"@),
        c.len() > 0,
        c[0] == '-',
        c.last() == '\n',
        no_fence_line(c),
    ensures
        with_comment(
            body + section_gap(body) + "## Comments\n\n```yaml\n"@ + c + "```\n"@,
            e,
        ) == body + section_gap(body) + "## Comments\n\n```yaml\n"@ + (c + e) + "```\n"@,
{
    reveal_strlit("## Comments");
    reveal_strlit("```yaml");
    reveal_strlit("\n```");
    reveal_strlit("```");
    reveal_strlit("## Comments\n\n```yaml\n");
    reveal_strlit("```\n");
    reveal_strlit("\n\n");
    let gap = section_gap(body);
    let head = "## Comments\n\n```yaml\n"@;
    let close = "```\n"@;
    let pre = body + gap;
    let b = pre + head + c + close;
    let start = pre.len() as int;
    let i0 = start + 13;
    let p = start + 21 + c.len();
    assert forall|x: int| 0 <= x < b.len() implies #[trigger] b[x] == (if x < body.len() {
        body[x]
    } else if x < start {
        '\n'
    } else if x < start + 21 {
        head[x - start]
    } else if x < p {
        c[x - start - 21]
    } else {
        close[x - p]
    }) by {
        if body.len() <= x < start {
            assert(b[x] == gap[x - body.len()]);
        }
    }
    assert(b.subrange(start, start + 11) =~= "## Comments"@);
    assert(occurs_at(b, "## Comments"@, start));
    lemma_find_from(b, "## Comments"@, 0);
    assert(contains(b, "## Comments"@));
    assert(b.subrange(i0, i0 + 7) =~= "```yaml"@);
    assert(occurs_at(b, "```yaml"@, i0));
    lemma_find_from(body, "```"@, 0);
    assert forall|q: int| 0 <= q < i0 implies !occurs_at(b, "```yaml"@, q) by {
        if occurs_at(b, "```yaml"@, q) {
            let w = b.subrange(q, q + 7);
            assert(w[0] == b[q] && w[1] == b[q + 1] && w[2] == b[q + 2]);
            assert(q + 2 < body.len());
            assert(body.subrange(q, q + 3) =~= "```"@);
            assert(occurs_at(body, "```"@, q));
        }
    }
    lemma_find_is(b, "```yaml"@, i0);
    let pat = "\n```"@;
    assert(b.subrange(p - 1, p + 3) =~= pat);
    assert(occurs_at(b, pat, p - 1));
    lemma_find_from(b, pat, i0 + 7);
    assert forall|q: int| i0 + 7 <= q < p - 1 implies !occurs_at(b, pat, q) by {
        if occurs_at(b, pat, q) {
            let w = b.subrange(q, q + 4);
            assert(w[0] == b[q] && w[1] == b[q + 1] && w[2] == b[q + 2] && w[3] == b[q + 3]);
            if q >= start + 21 {
                let k = q - start - 21;
                if k + 4 <= c.len() {
                    assert(c.subrange(k, k + 4) =~= w);
                    assert(occurs_at(c, pat, k));
                }
            }
        }
    }
    assert(find_from(b, pat, i0 + 7) == Some(p - 1));
    assert(fence_position(b) == Some(p));
    assert(b.take(p) + e + b.skip(p) =~= pre + head + (c + e) + close);
}

/// Comments that are appended one after the other to a body without a
/// Comments section and without a fence stand in one fenced block, in the
/// order in which they came, the last one directly ahead of the closing
/// fence. This holds where no record holds a newline with a fence after it.
pub proof fn lemma_comments_accumulate(body: Seq<char>, rs: Seq<Remark>)
    requires
        rs.len() >= 1,
        !contains(body, "## Comments"@),
        !contains(body, "```"@),
        forall|i: int| 0 <= i < rs.len() ==> no_fence_line(remark_entry(#[trigger] rs[i])),
    ensures
        with_comments(body, rs) == body + section_gap(body) + "## Comments\n\n```yaml\n"@
            + remark_entries(rs) + "```\n"@,
    decreases rs.len(),
{
    let init = rs.drop_last();
    let e = remark_entry(rs.last());
    if rs.len() == 1 {
        assert(init.len() == 0);
        assert(remark_entries(init) =~= Seq::<char>::empty());
        assert(remark_entries(rs) =~= e);
        assert(with_comments(body, init) == body);
    } else {
        assert forall|i: int| 0 <= i < init.len() implies no_fence_line(
            remark_entry(#[trigger] init[i]),
        ) by {
            assert(init[i] == rs[i]);
        }
        lemma_comments_accumulate(body, init);
        lemma_entries_shape(init);
        lemma_append_step(body, remark_entries(init), e);
    }
}

} // verus!
