//! The issue store's rules: how a record's file is named, which files hold
//! records, and which file a reference by id or slug means.
//!
//! The library decides on names and texts; reading and writing the files is
//! the caller's part.

use std::collections::HashMap;
use vstd::prelude::*;
use crate::issues::frontmatter::{parse_issue, parsed, serialize_issue, serialized};
use crate::issues::models::{store_view, store_wf, Issue, IssueModel};
use crate::number::{
    decimal, decimal3, decimal3_of, digit_value, digits_value, lemma_decimal_value,
    lemma_parse_decimal, parse_u32, parse_u32_of,
};
use crate::paths::{extension, extension_of, file_stem, file_stem_of, join_path, join_paths};
use crate::paths::{dot_index, file_name, tail_len};
use crate::text::{
    chars_of, ends_with, ends_with_of, index_of, is_str, lemma_rspan_is, lemma_span_is,
    matches_at, push_all, push_str, same, slice, span_in, starts_with, string_of, CharClass,
};
use crate::text_laws::no_char;

verus! {

broadcast use vstd::std_specs::hash::group_hash_axioms;

/// Path of `config.json` inside the issues directory.
pub fn config_path(issues_dir: &str) -> (r: String)
    ensures
        r@ == join_path(issues_dir@, "config.json"@),
{
    join_paths(issues_dir, "config.json")
}

/// Returns the current time in ISO 8601 form. The body makes the call
/// `Timestamp::now_utc` of the crate `iso8601_timestamp` and formats what it
/// returns; the result depends on the clock, so nothing is claimed of it.
#[verifier::external_body]
pub fn now_iso() -> String {
    iso8601_timestamp::Timestamp::now_utc().to_string()
}

/// The file has the extension `md`.
pub open spec fn is_markdown(name: Seq<char>) -> bool {
    extension(name) == Some("md"@)
}

/// What stands before the first `-` of a file stem.
pub open spec fn id_prefix(stem: Seq<char>) -> Seq<char> {
    stem.take(index_of(stem, '-') as int)
}

/// The id that a file's name gives its record: the number before the first
/// `-` of the stem of a markdown file.
pub open spec fn issue_file_id(name: Seq<char>) -> Option<u32> {
    if is_markdown(name) {
        parse_u32(id_prefix(file_stem(name)))
    } else {
        None
    }
}

/// The name of the file of a record: the id, three digits wide, `-`, the
/// slug, and the extension `md`.
pub open spec fn issue_file_name(id: u32, slug: Seq<char>) -> Seq<char> {
    decimal3(id as nat) + seq!['-'] + slug + ".md"@
}

/// The records that a list of files holds, each under the id of its file's
/// name; a file whose name gives no id or whose text is no issue is passed
/// over, and a later file replaces an earlier one with the same id.
pub open spec fn loaded(files: Seq<(Seq<char>, Seq<char>)>) -> Map<u32, IssueModel>
    decreases files.len(),
{
    if files.len() == 0 {
        Map::empty()
    } else {
        let before = loaded(files.drop_last());
        match issue_file_id(files.last().0) {
            Some(id) => match parsed(files.last().1, id) {
                Some(i) => before.insert(id, i),
                None => before,
            },
            None => before,
        }
    }
}

/// The names and texts of a list of files.
pub open spec fn file_views(files: Seq<(String, String)>) -> Seq<(Seq<char>, Seq<char>)> {
    files.map_values(|f: (String, String)| (f.0@, f.1@))
}

/// The stem of a file refers to `reference`: the reference is a number and
/// the stem begins with it, three digits wide, and `-`; or the stem ends
/// with `-` and the reference; or the stem is the reference.
pub open spec fn refers_to(stem: Seq<char>, reference: Seq<char>) -> bool {
    ||| (parse_u32(reference) is Some && starts_with(
        stem,
        decimal3(parse_u32(reference)->0 as nat) + seq!['-'],
    ))
    ||| ends_with(stem, seq!['-'] + reference)
    ||| stem == reference
}

/// The file is a markdown file whose stem refers to `reference`.
pub open spec fn file_refers_to(name: Seq<char>, reference: Seq<char>) -> bool {
    is_markdown(name) && refers_to(file_stem(name), reference)
}

/// Index of the first file at or after `i` that refers to `reference`; the
/// number of files where none does.
pub open spec fn first_referring(names: Seq<Seq<char>>, reference: Seq<char>, i: int) -> int
    decreases names.len() - i,
{
    if i < 0 || i >= names.len() {
        names.len() as int
    } else if file_refers_to(names[i], reference) {
        i
    } else {
        first_referring(names, reference, i + 1)
    }
}

/// Whether the file has the extension `md`.
pub fn is_markdown_file(name: &Vec<char>) -> (r: bool)
    ensures
        r == is_markdown(name@),
{
    match extension_of(name) {
        Some(e) => is_str(&e, "md"),
        None => false,
    }
}

/// The id that a file's name gives its record.
pub fn file_id(name: &str) -> (r: Option<u32>)
    ensures
        r == issue_file_id(name@),
{
    let n = chars_of(name);
    if !is_markdown_file(&n) {
        return None;
    }
    let stem = file_stem_of(&n);
    let k = span_in(&stem, 0, stem.len(), CharClass::Except('-'));
    assert(stem@.subrange(0, stem.len() as int) =~= stem@);
    let prefix = slice(&stem, 0, k);
    assert(prefix@ =~= id_prefix(stem@));
    parse_u32_of(&prefix)
}

/// The name of the file of the record with this id and slug.
pub fn file_name_for(id: u32, slug: &str) -> (r: String)
    ensures
        r@ == issue_file_name(id, slug@),
{
    let mut r = decimal3_of(id as u64);
    r.push('-');
    push_str(&mut r, slug);
    push_str(&mut r, ".md");
    string_of(&r)
}

/// Loads all issues from the files of the issues directory, given as pairs
/// of file name and text. Files that are no issue files are passed over.
/// Every record of the result stands under its own id.
pub fn load_all_issues(files: &Vec<(String, String)>) -> (r: HashMap<u32, Issue>)
    ensures
        store_view(r@) == loaded(file_views(files@)),
        store_wf(r@),
{
    let mut map: HashMap<u32, Issue> = HashMap::new();
    let mut i: usize = 0;
    assert(file_views(files@).take(0) =~= Seq::<(Seq<char>, Seq<char>)>::empty());
    assert(store_view(map@) =~= Map::<u32, IssueModel>::empty());
    while i < files.len()
        invariant
            i <= files.len(),
            store_view(map@) == loaded(file_views(files@).take(i as int)),
            store_wf(map@),
        decreases files.len() - i,
    {
        let ghost next = file_views(files@).take(i + 1);
        assert(next.drop_last() =~= file_views(files@).take(i as int));
        assert(next.last() == (files@[i as int].0@, files@[i as int].1@));
        let ghost before = map@;
        match file_id(files[i].0.as_str()) {
            Some(id) => match parse_issue(files[i].1.as_str(), id) {
                Some(issue) => {
                    let ghost model = issue@;
                    map.insert(id, issue);
                    assert(store_view(map@) =~= store_view(before).insert(id, model));
                },
                None => {},
            },
            None => {},
        }
        i += 1;
    }
    assert(file_views(files@).take(files.len() as int) =~= file_views(files@));
    map
}

/// Whether the stem of a file refers to `reference`.
pub fn stem_refers_to(stem: &Vec<char>, reference: &Vec<char>) -> (r: bool)
    ensures
        r == refers_to(stem@, reference@),
{
    match parse_u32_of(reference) {
        Some(id) => {
            let mut prefix = decimal3_of(id as u64);
            prefix.push('-');
            assert(prefix@ =~= decimal3(id as nat) + seq!['-']);
            if matches_at(stem, &prefix, 0) {
                return true;
            }
        },
        None => {},
    }
    let mut suffix: Vec<char> = Vec::new();
    suffix.push('-');
    push_all(&mut suffix, reference);
    assert(suffix@ =~= seq!['-'] + reference@);
    ends_with_of(stem, &suffix) || same(stem, reference)
}

/// Resolves an id or a slug to the file of an issue: the first of the given
/// file names, in their order, that is a markdown file whose stem refers to
/// it. The index of that name is returned. Where several files refer to it,
/// the order of the names decides, and a directory lists its files in no
/// promised order.
pub fn resolve_issue_path(names: &Vec<String>, id_or_slug: &str) -> (r: Option<usize>)
    ensures
        match r {
            Some(i) => i == first_referring(crate::llmd_dir::texts(names@), id_or_slug@, 0) && i
                < names.len(),
            None => first_referring(crate::llmd_dir::texts(names@), id_or_slug@, 0)
                == names.len(),
        },
{
    let reference = chars_of(id_or_slug);
    let ghost all = crate::llmd_dir::texts(names@);
    let mut i: usize = 0;
    while i < names.len()
        invariant
            i <= names.len(),
            all == crate::llmd_dir::texts(names@),
            reference@ == id_or_slug@,
            first_referring(all, id_or_slug@, 0) == first_referring(all, id_or_slug@, i as int),
        decreases names.len() - i,
    {
        assert(all[i as int] == names@[i as int]@);
        let n = chars_of(names[i].as_str());
        if is_markdown_file(&n) {
            let stem = file_stem_of(&n);
            if stem_refers_to(&stem, &reference) {
                return Some(i);
            }
        }
        i += 1;
    }
    None
}

/// What writing an issue puts on disk: the name of its file, from its id and
/// its slug as they are now, and the text of the file. A file under an
/// earlier slug of the same issue is left to the caller.
pub fn write_issue(issue: &Issue) -> (r: (String, String))
    ensures
        r.0@ == issue_file_name(issue.id, issue.slug@),
        r.1@ == serialized(issue@),
{
    (file_name_for(issue.id, issue.slug.as_str()), serialize_issue(issue))
}

/// Zeros in front of a run of digits do not change its value.
proof fn lemma_leading_zero(s: Seq<char>)
    requires
        s.len() > 0,
        digits_value(s) is Some,
    ensures
        digits_value(seq!['0'] + s) == digits_value(s),
    decreases s.len(),
{
    let z = seq!['0'] + s;
    assert(z.last() == s.last());
    if s.len() == 1 {
        assert(z.drop_last() =~= seq!['0']);
        assert(s.last() == s[0]);
    } else {
        assert(z.drop_last() =~= seq!['0'] + s.drop_last());
        lemma_leading_zero(s.drop_last());
    }
}

/// The id is read back from the three-digit form.
proof fn lemma_parse_decimal3(id: u32)
    ensures
        parse_u32(decimal3(id as nat)) == Some(id),
        no_char(decimal3(id as nat), '-'),
        no_char(decimal3(id as nat), '/'),
        no_char(decimal3(id as nat), '.'),
        decimal3(id as nat).len() >= 3,
{
    let n = id as nat;
    let d = decimal(n);
    let d3 = decimal3(n);
    lemma_decimal_value(n);
    assert(digit_value(d[0]) is Some);
    if n < 10 {
        lemma_leading_zero(d);
        lemma_leading_zero(seq!['0'] + d);
        assert(d3 =~= seq!['0'] + (seq!['0'] + d));
    } else if n < 100 {
        lemma_leading_zero(d);
        assert(d.len() >= 2) by {
            assert(d == decimal(n / 10).push(crate::number::digit_char(n % 10)));
            lemma_decimal_value(n / 10);
        }
    } else {
        assert(d.len() >= 3) by {
            assert(d == decimal(n / 10).push(crate::number::digit_char(n % 10)));
            assert(n / 10 >= 10);
            assert(decimal(n / 10) == decimal(n / 10 / 10).push(
                crate::number::digit_char(n / 10 % 10),
            ));
            lemma_decimal_value(n / 10 / 10);
        }
    }
    assert(digits_value(d3) == Some(n));
    assert forall|i: int| 0 <= i < d3.len() implies digit_value(#[trigger] d3[i]) is Some by {
        if i >= d3.len() - d.len() {
            assert(d3[i] == d[i - (d3.len() - d.len())]);
        }
    }
    assert(digit_value(d3[0]) is Some);
    assert forall|i: int| 0 <= i < d3.len() implies d3[i] != '-' && d3[i] != '/' && d3[i] != '.' by {
        assert(digit_value(d3[i]) is Some);
    }
}

/// The file of a record is found again: its name, made from the id and the
/// slug, gives the id back when the store is loaded, and a reference by the
/// id refers to it. This holds for every slug without a `/`.
pub proof fn lemma_file_name_id(id: u32, slug: Seq<char>)
    requires
        no_char(slug, '/'),
    ensures
        issue_file_id(issue_file_name(id, slug)) == Some(id),
        file_refers_to(issue_file_name(id, slug), decimal(id as nat)),
{
    reveal_strlit(".md");
    reveal_strlit("md");
    let d3 = decimal3(id as nat);
    lemma_parse_decimal3(id);
    let stem = d3 + seq!['-'] + slug;
    let name = issue_file_name(id, slug);
    assert(name =~= stem + seq!['.', 'm', 'd']);
    assert forall|i: int| 0 <= i < name.len() implies name[i] != '/' by {
        if i < d3.len() {
            assert(name[i] == d3[i]);
        } else if d3.len() < i < d3.len() + 1 + slug.len() {
            assert(name[i] == slug[i - d3.len() - 1]);
        }
    }
    lemma_rspan_is(name, CharClass::Except('/'), name.len() as int);
    assert(name.skip(0) =~= name);
    assert(file_name(name) == name);
    lemma_rspan_is(name, CharClass::Except('.'), 2);
    assert(tail_len(name, '.') == 2);
    assert(dot_index(name) == Some(name.len() - 3));
    assert(name.skip(name.len() - 2) =~= "md"@);
    assert(name.take(name.len() - 3) =~= stem);
    assert forall|i: int| 0 <= i < d3.len() implies CharClass::Except('-').has(
        #[trigger] stem[i],
    ) by {
        assert(stem[i] == d3[i]);
    }
    assert(stem[d3.len() as int] == '-');
    lemma_span_is(stem, CharClass::Except('-'), d3.len() as int);
    assert(stem.take(d3.len() as int) =~= d3);
    lemma_parse_decimal(id);
    let prefix = d3 + seq!['-'];
    assert(stem.subrange(0, prefix.len() as int) =~= prefix);
}

} // verus!
