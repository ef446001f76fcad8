//! The heading model: ATX headings of a markdown text and the section that
//! one heading opens.

use vstd::prelude::*;
use crate::text::{
    CharClass, chars_of, contains, contains_of, join, join_range, lines, lines_of, lowercase,
    occurs_at, rows, span, span_in, string_of, strip_start, strip_start_of, to_lower, trim,
    trim_of,
};

verus! {

/// Depth of the heading that `line` is: the length of its leading run of `#`,
/// where a space follows the run; 0 where the line is no heading.
pub open spec fn heading_level(line: Seq<char>) -> nat {
    let d = span(line, CharClass::Only('#'));
    if d > 0 && d < line.len() && line[d as int] == ' ' {
        d
    } else {
        0
    }
}

/// The text of a heading line: what follows the run of `#`, trimmed.
pub open spec fn heading_title(line: Seq<char>) -> Seq<char> {
    trim(strip_start(line, CharClass::Only('#')))
}

/// The headings among the given lines, each with its depth, in order.
pub open spec fn headings_in(ls: Seq<Seq<char>>) -> Seq<(nat, Seq<char>)>
    decreases ls.len(),
{
    if ls.len() == 0 {
        Seq::empty()
    } else {
        let before = headings_in(ls.drop_last());
        if heading_level(ls.last()) > 0 {
            before.push((heading_level(ls.last()), heading_title(ls.last())))
        } else {
            before
        }
    }
}

/// The headings of a markdown text.
pub open spec fn headings(source: Seq<char>) -> Seq<(nat, Seq<char>)> {
    headings_in(lines(source))
}

/// What a list of headings stands for: depths as numbers, titles as text.
pub open spec fn heading_views(v: Seq<(usize, String)>) -> Seq<(nat, Seq<char>)> {
    v.map_values(|h: (usize, String)| (h.0 as nat, h.1@))
}

/// `line` is a heading whose title, in lowercase, contains `needle`.
pub open spec fn heading_matches(line: Seq<char>, needle: Seq<char>) -> bool {
    heading_level(line) > 0 && contains(lowercase(heading_title(line)), needle)
}

/// Index of the first line at or after `from` that is a heading matching
/// `needle`; `ls.len()` where there is none.
pub open spec fn first_match(ls: Seq<Seq<char>>, needle: Seq<char>, from: int) -> int
    decreases ls.len() - from,
{
    if from < 0 || from >= ls.len() {
        ls.len() as int
    } else if heading_matches(ls[from], needle) {
        from
    } else {
        first_match(ls, needle, from + 1)
    }
}

/// `line` is a heading of depth at most `depth`: it closes a section of that depth.
pub open spec fn closes_section(line: Seq<char>, depth: nat) -> bool {
    0 < heading_level(line) <= depth
}

/// Index of the first line at or after `from` that closes a section of depth
/// `depth`; `ls.len()` where there is none.
pub open spec fn section_end(ls: Seq<Seq<char>>, depth: nat, from: int) -> int
    decreases ls.len() - from,
{
    if from < 0 || from >= ls.len() {
        ls.len() as int
    } else if closes_section(ls[from], depth) {
        from
    } else {
        section_end(ls, depth, from + 1)
    }
}

/// The section that the first heading matching `needle` opens: its lines,
/// from the heading up to the next heading that is not deeper, joined by `\n`.
pub open spec fn section_in(ls: Seq<Seq<char>>, needle: Seq<char>) -> Option<Seq<char>> {
    let start = first_match(ls, needle, 0);
    if start >= ls.len() {
        None
    } else {
        let end = section_end(ls, heading_level(ls[start]), start + 1);
        Some(join(ls.subrange(start, end), seq!['\n']))
    }
}

/// The section of `source` under the first heading whose title contains
/// `needle`, compared in lowercase.
pub open spec fn section(source: Seq<char>, needle: Seq<char>) -> Option<Seq<char>> {
    section_in(lines(source), lowercase(needle))
}

/// The lines numbered `start` to `end`, counted from 1, joined by `\n`; the
/// range is cut to the lines that exist.
pub open spec fn line_window(source: Seq<char>, start: nat, end: nat) -> Seq<char> {
    let ls = lines(source);
    let skip = if start >= 1 { start - 1 } else { 0 };
    let count = if end >= skip { end - skip } else { 0 };
    let a = if skip <= ls.len() { skip } else { ls.len() as int };
    let b = if a + count <= ls.len() { a + count } else { ls.len() as int };
    join(ls.subrange(a, b), seq!['\n'])
}

/// What `first_match` returns is the least index of a matching heading at
/// or after `from`.
pub proof fn lemma_first_match(ls: Seq<Seq<char>>, needle: Seq<char>, from: int)
    requires
        0 <= from,
    ensures
        from <= first_match(ls, needle, from) || first_match(ls, needle, from) == ls.len(),
        first_match(ls, needle, from) <= ls.len(),
        first_match(ls, needle, from) < ls.len() ==> heading_matches(
            ls[first_match(ls, needle, from)],
            needle,
        ),
        forall|j: int| from <= j < first_match(ls, needle, from) ==> !heading_matches(ls[j], needle),
    decreases ls.len() - from,
{
    if from < ls.len() && !heading_matches(ls[from], needle) {
        lemma_first_match(ls, needle, from + 1);
    }
}

/// What `section_end` returns is the least index at or after `from` of a
/// line that closes the section.
pub proof fn lemma_section_end(ls: Seq<Seq<char>>, depth: nat, from: int)
    requires
        0 <= from <= ls.len(),
    ensures
        from <= section_end(ls, depth, from) <= ls.len(),
        section_end(ls, depth, from) < ls.len() ==> closes_section(
            ls[section_end(ls, depth, from)],
            depth,
        ),
        forall|j: int| from <= j < section_end(ls, depth, from) ==> !closes_section(ls[j], depth),
    decreases ls.len() - from,
{
    if from < ls.len() && !closes_section(ls[from], depth) {
        lemma_section_end(ls, depth, from + 1);
    }
}

/// A text contains itself.
pub proof fn lemma_contains_self(s: Seq<char>)
    ensures
        contains(s, s),
{
    assert(s.subrange(0, s.len() as int) =~= s);
    assert(occurs_at(s, s, 0));
}

/// Asking for a heading by its exact title returns the block that begins at
/// that heading and ends strictly before the next heading of the same or a
/// lesser depth, or at the end of the document, provided that no earlier
/// heading's title contains the title asked for (the earliest match wins).
pub proof fn lemma_section_of_heading(source: Seq<char>, h: int)
    requires
        0 <= h < lines(source).len(),
        heading_level(lines(source)[h]) > 0,
        forall|j: int|
            0 <= j < h ==> !heading_matches(
                #[trigger] lines(source)[j],
                lowercase(heading_title(lines(source)[h])),
            ),
    ensures
        ({
            let ls = lines(source);
            let end = section_end(ls, heading_level(ls[h]), h + 1);
            &&& section(source, heading_title(ls[h])) == Some(
                join(ls.subrange(h, end), seq!['\n']),
            )
            &&& h < end <= ls.len()
            &&& ls.subrange(h, end)[0] == ls[h]
            &&& forall|j: int| h < j < end ==> !closes_section(#[trigger] ls[j], heading_level(ls[h]))
            &&& end < ls.len() ==> closes_section(ls[end], heading_level(ls[h]))
        }),
{
    let ls = lines(source);
    let needle = lowercase(heading_title(ls[h]));
    lemma_contains_self(needle);
    lemma_first_match(ls, needle, 0);
    lemma_section_end(ls, heading_level(ls[h]), h + 1);
    let f = first_match(ls, needle, 0);
    assert(heading_matches(ls[h], needle));
    if f < h {
        assert(!heading_matches(ls[f], needle));
    }
    if f > h {
        assert(!heading_matches(ls[h], needle));
    }
}

/// Depth of the heading in `line`, 0 where it is none.
pub fn level_of(line: &Vec<char>) -> (d: usize)
    ensures
        d == heading_level(line@),
{
    let d = span_in(line, 0, line.len(), CharClass::Only('#'));
    assert(line@.subrange(0, line.len() as int) =~= line@);
    if d > 0 && d < line.len() && line[d] == ' ' {
        d
    } else {
        0
    }
}

/// Title of the heading in `line`.
pub fn title_of(line: &Vec<char>) -> (t: Vec<char>)
    ensures
        t@ == heading_title(line@),
{
    let rest = strip_start_of(line, CharClass::Only('#'));
    trim_of(&rest)
}

/// Returns the heading depth of a line (1 for `#`, 2 for `##`, and so on),
/// or 0 if the line is not a heading.
pub fn heading_depth(line: &str) -> (d: usize)
    ensures
        d == heading_level(line@),
{
    let l = chars_of(line);
    level_of(&l)
}

/// Returns all headings of `source` as pairs of depth and title.
pub fn list_headings(source: &str) -> (r: Vec<(usize, String)>)
    ensures
        heading_views(r@) == headings(source@),
{
    let src = chars_of(source);
    let ls = lines_of(&src);
    let mut r: Vec<(usize, String)> = Vec::new();
    let mut i: usize = 0;
    assert(rows(ls@).take(0) =~= Seq::<Seq<char>>::empty());
    assert(heading_views(r@) =~= Seq::<(nat, Seq<char>)>::empty());
    while i < ls.len()
        invariant
            i <= ls.len(),
            rows(ls@) == lines(source@),
            heading_views(r@) == headings_in(rows(ls@).take(i as int)),
        decreases ls.len() - i,
    {
        let ghost before = heading_views(r@);
        let ghost next = rows(ls@).take(i + 1);
        assert(next.drop_last() =~= rows(ls@).take(i as int));
        assert(next.last() == ls@[i as int]@);
        let d = level_of(&ls[i]);
        if d > 0 {
            let t = title_of(&ls[i]);
            let title = string_of(&t);
            r.push((d, title));
            assert(heading_views(r@) =~= before.push((d as nat, t@)));
        }
        i += 1;
    }
    assert(rows(ls@).take(ls.len() as int) =~= rows(ls@));
    r
}

/// Index of the first heading line at or after `from` whose lowercase title
/// contains `needle`; the number of lines where there is none.
pub fn find_heading(ls: &Vec<Vec<char>>, needle: &Vec<char>, from: usize) -> (r: usize)
    ensures
        r == first_match(rows(ls@), needle@, from as int),
        r <= ls.len(),
{
    let mut i: usize = from;
    while i < ls.len()
        invariant
            from <= i,
            first_match(rows(ls@), needle@, from as int) == first_match(
                rows(ls@),
                needle@,
                i as int,
            ),
        decreases ls.len() - i,
    {
        if level_of(&ls[i]) > 0 {
            let t = title_of(&ls[i]);
            let low = to_lower(&t);
            if contains_of(&low, needle) {
                return i;
            }
        }
        i += 1;
    }
    ls.len()
}

/// Index of the first line at or after `from` that is a heading of depth at
/// most `depth`; the number of lines where there is none.
pub fn find_section_end(ls: &Vec<Vec<char>>, depth: usize, from: usize) -> (r: usize)
    ensures
        r == section_end(rows(ls@), depth as nat, from as int),
        r <= ls.len(),
        from <= ls.len() ==> from <= r,
{
    let mut i: usize = from;
    while i < ls.len()
        invariant
            from <= i,
            section_end(rows(ls@), depth as nat, from as int) == section_end(
                rows(ls@),
                depth as nat,
                i as int,
            ),
        decreases ls.len() - i,
    {
        let d = level_of(&ls[i]);
        if 0 < d && d <= depth {
            return i;
        }
        i += 1;
    }
    ls.len()
}

/// The section under the first heading whose lowercase title contains `needle`.
pub fn section_of_lines(ls: &Vec<Vec<char>>, needle: &Vec<char>) -> (r: Option<Vec<char>>)
    ensures
        match section_in(rows(ls@), needle@) {
            Some(t) => r matches Some(x) && x@ == t,
            None => r is None,
        },
{
    let start = find_heading(ls, needle, 0);
    if start >= ls.len() {
        return None;
    }
    let depth = level_of(&ls[start]);
    let end = find_section_end(ls, depth, start + 1);
    let mut nl: Vec<char> = Vec::new();
    nl.push('\n');
    assert(nl@ =~= seq!['\n']);
    Some(join_range(ls, start, end, &nl))
}

/// Extracts the section under the first heading whose title contains
/// `section` as a case-insensitive substring: the lines from that heading up
/// to, and without, the next heading of equal or lesser depth.
///
/// Returns `None` if no heading matches.
pub fn extract_section(source: &str, section: &str) -> (r: Option<String>)
    ensures
        match self::section(source@, section@) {
            Some(t) => r matches Some(x) && x@ == t,
            None => r is None,
        },
{
    let low = section.to_lowercase();
    let needle = chars_of(low.as_str());
    let src = chars_of(source);
    let ls = lines_of(&src);
    match section_of_lines(&ls, &needle) {
        Some(t) => Some(string_of(&t)),
        None => None,
    }
}

/// The estimate of the number of tokens of a text: one token per 4 bytes of
/// its UTF-8 form, rounded up.
pub open spec fn token_estimate(text: Seq<char>) -> nat {
    ((vstd::utf8::encode_utf8(text).len() + 3) / 4) as nat
}

/// Estimates the number of tokens in `text`: one token per 4 bytes of its
/// UTF-8 form, rounded up.
pub fn estimate_tokens(text: &str) -> (n: usize)
    ensures
        n == token_estimate(text@),
{
    let len = text.as_bytes().len();
    if len % 4 == 0 {
        len / 4
    } else {
        len / 4 + 1
    }
}

/// Returns the lines `start..=end` of `source`, counted from 1, joined by
/// `\n`; the range is cut to the lines that exist.
pub fn window(source: &str, start: usize, end: usize) -> (r: String)
    ensures
        r@ == line_window(source@, start as nat, end as nat),
{
    let src = chars_of(source);
    let ls = lines_of(&src);
    let skip = if start >= 1 {
        start - 1
    } else {
        0
    };
    let count = if end >= skip {
        end - skip
    } else {
        0
    };
    let a = if skip <= ls.len() {
        skip
    } else {
        ls.len()
    };
    let b = if count <= ls.len() - a {
        a + count
    } else {
        ls.len()
    };
    let mut nl: Vec<char> = Vec::new();
    nl.push('\n');
    assert(nl@ =~= seq!['\n']);
    let t = join_range(&ls, a, b, &nl);
    string_of(&t)
}

} // verus!
