//! Composing a task-context document: the index of sections over the topic
//! documents, the ways to select from it, and the assembly of the document.

use vstd::prelude::*;
use crate::llmd_dir::texts;
use crate::issues::frontmatter::{
    clean, clean_of, entry_name, entry_name_of, flow_items, flow_items_of, non_empty, opens,
    opens_of, or_text,
};
use crate::markdown::{
    extract_section, heading_views, headings, line_window, list_headings, section, window,
};
use crate::paths::{join_path, without_extension, without_extension_of};
use crate::text::{
    chars_of, contains, contains_of, copy_of, first_piece, first_piece_of, indent, join, join_of,
    lines, lines_of, lowercase, matches_at, push_all, push_str, rows, same, second_piece,
    second_piece_of, slice, sorted_set, span_in, split_once, split_once_of, starts_with,
    string_of, strictly_sorted, strip, strip_of, to_lower, trim, trim_of, words, words_of,
    CharClass,
};

verus! {

/// Arguments of the command that composes a context document.
#[derive(Debug, Clone)]
pub struct ComposeArgs {
    /// Section numbers to take, counted from 1 in the section index.
    pub sections: Vec<usize>,
    /// Task description, for the header.
    pub task: Option<String>,
    /// Compose from this issue (id or slug).
    pub issue: Option<String>,
    /// Leave out the topics that the issue's labels map to.
    pub no_auto_include: bool,
    /// Topic files to take whole, by name without extension.
    pub topics: Vec<String>,
    /// File to read the task description from.
    pub from: Option<String>,
    /// File to write the document to.
    pub output: Option<String>,
}

/// A single entry in the section index: a heading of a topic document.
#[derive(Debug, Clone, PartialEq, Eq)]
pub struct IndexedSection {
    /// Display label: the document's label, ` > `, the heading.
    pub label: String,
    /// The document that the section lives in.
    pub file: String,
    /// The heading's text, by which the section is extracted again.
    pub heading: String,
}

/// What an entry of the section index stands for.
pub struct SectionModel {
    pub label: Seq<char>,
    pub file: Seq<char>,
    pub heading: Seq<char>,
}

impl View for IndexedSection {
    type V = SectionModel;

    open spec fn view(&self) -> SectionModel {
        SectionModel { label: self.label@, file: self.file@, heading: self.heading@ }
    }
}

/// What a list of index entries stands for.
pub open spec fn section_views(v: Seq<IndexedSection>) -> Seq<SectionModel> {
    v.map_values(|s: IndexedSection| s@)
}

/// `path` lies in the directory `dir`, or is it.
pub open spec fn lies_under(dir: Seq<char>, path: Seq<char>) -> bool {
    path == dir || starts_with(path, join_path(dir, Seq::empty()))
}

/// `path` relative to `dir`, where it lies inside it; else `path` as it is.
pub open spec fn relative_to(dir: Seq<char>, path: Seq<char>) -> Seq<char> {
    let prefix = join_path(dir, Seq::empty());
    if starts_with(path, prefix) {
        path.skip(prefix.len() as int)
    } else {
        path
    }
}

/// The label of a document: its path inside the `.llmd` directory, without
/// the extension.
pub open spec fn document_label(llmd: Seq<char>, path: Seq<char>) -> Seq<char> {
    without_extension(relative_to(llmd, path))
}

/// A document that the section index leaves out: the overview `catme.md`,
/// anything under `imported`, and anything under `issues`.
pub open spec fn is_reserved(llmd: Seq<char>, path: Seq<char>) -> bool {
    ||| path == join_path(llmd, "catme.md"@)
    ||| lies_under(join_path(llmd, "imported"@), path)
    ||| lies_under(join_path(llmd, "issues"@), path)
}

/// A heading of depth 2 or 3 is listed in the index: depth 1 is the
/// document's title, deeper ones are too fine to select.
pub open spec fn is_listed(depth: nat) -> bool {
    depth == 2 || depth == 3
}

/// The display label of an entry.
pub open spec fn entry_label(doc_label: Seq<char>, heading: Seq<char>) -> Seq<char> {
    doc_label + " > "@ + heading
}

/// The index entries of one document, from its headings.
pub open spec fn doc_entries(doc_label: Seq<char>, file: Seq<char>, hs: Seq<(nat, Seq<char>)>) -> Seq<
    SectionModel,
>
    decreases hs.len(),
{
    if hs.len() == 0 {
        Seq::empty()
    } else if is_listed(hs.last().0) {
        doc_entries(doc_label, file, hs.drop_last()).push(
            SectionModel {
                label: entry_label(doc_label, hs.last().1),
                file: file,
                heading: hs.last().1,
            },
        )
    } else {
        doc_entries(doc_label, file, hs.drop_last())
    }
}

/// The section index of a list of documents, each a pair of path and text:
/// the entries of each document in turn.
pub open spec fn section_index(llmd: Seq<char>, docs: Seq<(Seq<char>, Seq<char>)>) -> Seq<
    SectionModel,
>
    decreases docs.len(),
{
    if docs.len() == 0 {
        Seq::empty()
    } else {
        section_index(llmd, docs.drop_last()) + doc_entries(
            document_label(llmd, docs.last().0),
            docs.last().0,
            headings(docs.last().1),
        )
    }
}

/// The directory as a prefix of the paths inside it.
fn dir_prefix(dir: &Vec<char>) -> (r: Vec<char>)
    ensures
        r@ == join_path(dir@, Seq::empty()),
{
    let r = crate::paths::join_path_of(dir, "");
    proof {
        reveal_strlit("");
        assert(""@ =~= Seq::<char>::empty());
    }
    r
}

/// Whether `path` lies in the directory `dir`, or is it.
pub fn lies_under_of(dir: &Vec<char>, path: &Vec<char>) -> (r: bool)
    ensures
        r == lies_under(dir@, path@),
{
    let prefix = dir_prefix(dir);
    same(path, dir) || matches_at(path, &prefix, 0)
}

/// The label of a document.
pub fn document_label_of(llmd: &Vec<char>, path: &Vec<char>) -> (r: Vec<char>)
    ensures
        r@ == document_label(llmd@, path@),
{
    let prefix = dir_prefix(llmd);
    if matches_at(path, &prefix, 0) {
        let rel = slice(path, prefix.len(), path.len());
        assert(rel@ =~= path@.skip(prefix.len() as int));
        without_extension_of(&rel)
    } else {
        without_extension_of(path)
    }
}

/// Whether the section index leaves the document out.
pub fn is_reserved_file(llmd: &str, path: &str) -> (r: bool)
    ensures
        r == is_reserved(llmd@, path@),
{
    let l = chars_of(llmd);
    let p = chars_of(path);
    let catme = crate::paths::join_path_of(&l, "catme.md");
    let imported = crate::paths::join_path_of(&l, "imported");
    let issues = crate::paths::join_path_of(&l, "issues");
    same(&p, &catme) || lies_under_of(&imported, &p) || lies_under_of(&issues, &p)
}

/// The names and texts of a list of documents.
pub open spec fn doc_views(docs: Seq<(String, String)>) -> Seq<(Seq<char>, Seq<char>)> {
    docs.map_values(|d: (String, String)| (d.0@, d.1@))
}

/// Builds the flat, ordered index of the headings of depth 2 and 3 of the
/// given documents, each a pair of path and text: in the order of the
/// documents, then of the headings in each.
pub fn build_section_index(llmd: &str, docs: &Vec<(String, String)>) -> (r: Vec<IndexedSection>)
    ensures
        section_views(r@) == section_index(llmd@, doc_views(docs@)),
{
    let root = chars_of(llmd);
    let mut index: Vec<IndexedSection> = Vec::new();
    let mut i: usize = 0;
    let ghost all = doc_views(docs@);
    assert(all.take(0) =~= Seq::<(Seq<char>, Seq<char>)>::empty());
    assert(section_views(index@) =~= Seq::<SectionModel>::empty());
    while i < docs.len()
        invariant
            i <= docs.len(),
            root@ == llmd@,
            all == doc_views(docs@),
            section_views(index@) == section_index(llmd@, all.take(i as int)),
        decreases docs.len() - i,
    {
        let ghost next = all.take(i + 1);
        assert(next.drop_last() =~= all.take(i as int));
        assert(next.last() == (docs@[i as int].0@, docs@[i as int].1@));
        let ghost before = section_views(index@);
        let path = chars_of(docs[i].0.as_str());
        let label = document_label_of(&root, &path);
        let hs = list_headings(docs[i].1.as_str());
        let ghost hv = heading_views(hs@);
        let mut j: usize = 0;
        assert(hv.take(0) =~= Seq::<(nat, Seq<char>)>::empty());
        assert(before + doc_entries(label@, path@, hv.take(0)) =~= before);
        while j < hs.len()
            invariant
                j <= hs.len(),
                hv == heading_views(hs@),
                section_views(index@) == before + doc_entries(label@, path@, hv.take(j as int)),
            decreases hs.len() - j,
        {
            let ghost seen = hv.take(j as int);
            let ghost more = hv.take(j + 1);
            assert(more.drop_last() =~= seen);
            assert(more.last() == (hs@[j as int].0 as nat, hs@[j as int].1@));
            let depth = hs[j].0;
            if depth == 2 || depth == 3 {
                let heading = chars_of(hs[j].1.as_str());
                let mut text = copy_of(&label);
                push_str(&mut text, " > ");
                push_all(&mut text, &heading);
                let ghost prev = index@;
                let entry = IndexedSection {
                    label: string_of(&text),
                    file: string_of(&path),
                    heading: string_of(&heading),
                };
                let ghost model = entry@;
                index.push(entry);
                assert(section_views(index@) =~= section_views(prev).push(model));
                assert(section_views(index@) =~= before + doc_entries(label@, path@, more));
            }
            j += 1;
        }
        assert(hv.take(hs.len() as int) =~= hv);
        i += 1;
    }
    assert(all.take(docs.len() as int) =~= all);
    index
}

/// A selected position that the index does not have.
#[derive(Debug, Clone, Copy, PartialEq, Eq)]
pub struct SelectionError {
    /// The position that was asked for.
    pub index: usize,
    /// The number of entries of the index: the valid positions are 1 to `count`.
    pub count: usize,
}

/// The position is one of the index: from 1 to its length.
pub open spec fn in_range(n: usize, count: nat) -> bool {
    1 <= n <= count
}

/// Position, among the selected ones at or after `i`, of the first that is
/// out of range; their number where all are in range.
pub open spec fn first_bad(indices: Seq<usize>, count: nat, i: int) -> int
    decreases indices.len() - i,
{
    if i < 0 || i >= indices.len() {
        indices.len() as int
    } else if !in_range(indices[i], count) {
        i
    } else {
        first_bad(indices, count, i + 1)
    }
}

/// The selected positions without repetitions, each where it first occurs.
pub open spec fn first_occurrences(indices: Seq<usize>) -> Seq<usize>
    decreases indices.len(),
{
    if indices.len() == 0 {
        Seq::empty()
    } else {
        let before = first_occurrences(indices.drop_last());
        if before.contains(indices.last()) {
            before
        } else {
            before.push(indices.last())
        }
    }
}

/// The entries at the given positions, counted from 1.
pub open spec fn entries_at(index: Seq<SectionModel>, picks: Seq<usize>) -> Seq<SectionModel> {
    picks.map_values(|n: usize| index[n - 1])
}

/// Whether `v` holds `n`.
fn holds(v: &Vec<usize>, n: usize) -> (r: bool)
    ensures
        r == v@.contains(n),
{
    let mut i: usize = 0;
    while i < v.len()
        invariant
            i <= v.len(),
            forall|j: int| 0 <= j < i ==> v@[j] != n,
        decreases v.len() - i,
    {
        if v[i] == n {
            return true;
        }
        i += 1;
    }
    false
}

/// A copy of an index entry.
fn copy_section(s: &IndexedSection) -> (r: IndexedSection)
    ensures
        r@ == s@,
{
    IndexedSection {
        label: string_of(&chars_of(s.label.as_str())),
        file: string_of(&chars_of(s.file.as_str())),
        heading: string_of(&chars_of(s.heading.as_str())),
    }
}

/// Resolves positions in the section index, counted from 1, to its entries:
/// each position once, in the order of its first occurrence. A position
/// outside the index is an error that names it and the valid range; the
/// first such position in the list is the one reported.
pub fn resolve_sections_from_indices(index: &Vec<IndexedSection>, indices: &Vec<usize>) -> (r:
    Result<Vec<IndexedSection>, SelectionError>)
    ensures
        match r {
            Ok(v) => first_bad(indices@, index@.len(), 0) == indices@.len() && section_views(v@)
                == entries_at(section_views(index@), first_occurrences(indices@)),
            Err(e) => first_bad(indices@, index@.len(), 0) < indices@.len() && e.index
                == indices@[first_bad(indices@, index@.len(), 0)] && e.count == index@.len(),
        },
{
    let mut picks: Vec<usize> = Vec::new();
    let mut result: Vec<IndexedSection> = Vec::new();
    let mut i: usize = 0;
    let ghost all = section_views(index@);
    assert(indices@.take(0) =~= Seq::<usize>::empty());
    assert(section_views(result@) =~= entries_at(all, picks@));
    while i < indices.len()
        invariant
            i <= indices.len(),
            all == section_views(index@),
            first_bad(indices@, index@.len(), 0) == first_bad(indices@, index@.len(), i as int),
            picks@ == first_occurrences(indices@.take(i as int)),
            forall|j: int| 0 <= j < picks@.len() ==> in_range(#[trigger] picks@[j], index@.len()),
            section_views(result@) == entries_at(all, picks@),
        decreases indices.len() - i,
    {
        let n = indices[i];
        let ghost next = indices@.take(i + 1);
        assert(next.drop_last() =~= indices@.take(i as int));
        assert(next.last() == n);
        if n >= 1 && n <= index.len() {
            if !holds(&picks, n) {
                let ghost prev_picks = picks@;
                let ghost prev = result@;
                picks.push(n);
                let entry = copy_section(&index[n - 1]);
                result.push(entry);
                assert(section_views(result@) =~= section_views(prev).push(index@[n - 1]@));
                assert(entries_at(all, picks@) =~= entries_at(all, prev_picks).push(all[n - 1]));
            }
        } else {
            return Err(SelectionError { index: n, count: index.len() });
        }
        i += 1;
    }
    assert(indices@.take(indices.len() as int) =~= indices@);
    Ok(result)
}

impl SelectionError {
    /// The message that names the position and the valid range.
    pub open spec fn text(self) -> Seq<char> {
        "Section index "@ + crate::number::decimal(self.index as nat) + " is out of range (1\u{2013}"@
            + crate::number::decimal(self.count as nat)
            + "). Run `llmd index` to see available sections."@
    }

    /// The message that names the position and the valid range.
    pub fn message(&self) -> (r: String)
        ensures
            r@ == self.text(),
    {
        let mut out = chars_of("Section index ");
        push_all(&mut out, &crate::number::decimal_of(self.index as u64));
        push_str(&mut out, " is out of range (1\u{2013}");
        push_all(&mut out, &crate::number::decimal_of(self.count as u64));
        push_str(&mut out, "). Run `llmd index` to see available sections.");
        string_of(&out)
    }
}

/// The words of a task description, in lowercase, each without the
/// punctuation at its ends.
pub open spec fn stripped_words(task: Seq<char>) -> Seq<Seq<char>> {
    words(lowercase(task)).map_values(|w: Seq<char>| strip(w, CharClass::Punctuation))
}

/// The words that are long enough to be keywords, each once, where it first
/// occurs.
pub open spec fn distinct_keywords(ws: Seq<Seq<char>>) -> Seq<Seq<char>>
    decreases ws.len(),
{
    if ws.len() == 0 {
        Seq::empty()
    } else {
        let before = distinct_keywords(ws.drop_last());
        if ws.last().len() > 3 && !before.contains(ws.last()) {
            before.push(ws.last())
        } else {
            before
        }
    }
}

/// The keywords of a task description.
pub open spec fn keywords(task: Seq<char>) -> Seq<Seq<char>> {
    distinct_keywords(stripped_words(task))
}

/// Index of the first occurrence of `x` in `ws` at or after `from`; the
/// length of `ws` where there is none.
pub open spec fn first_position(ws: Seq<Seq<char>>, x: Seq<char>, from: int) -> int
    decreases ws.len() - from,
{
    if from < 0 || from >= ws.len() {
        ws.len() as int
    } else if ws[from] == x {
        from
    } else {
        first_position(ws, x, from + 1)
    }
}

proof fn lemma_first_position(ws: Seq<Seq<char>>, x: Seq<char>, from: int)
    requires
        0 <= from,
    ensures
        first_position(ws, x, from) <= ws.len(),
        first_position(ws, x, from) < ws.len() ==> from <= first_position(ws, x, from)
            && ws[first_position(ws, x, from)] == x,
        forall|j: int| from <= j < first_position(ws, x, from) && j < ws.len() ==> ws[j] != x,
    decreases ws.len() - from,
{
    if from < ws.len() && ws[from] != x {
        lemma_first_position(ws, x, from + 1);
    }
}

proof fn lemma_first_position_is(ws: Seq<Seq<char>>, x: Seq<char>, p: int)
    requires
        0 <= p < ws.len(),
        ws[p] == x,
        forall|j: int| 0 <= j < p ==> ws[j] != x,
    ensures
        first_position(ws, x, 0) == p,
{
    lemma_first_position(ws, x, 0);
}

/// Keyword extraction drops the words of three characters or fewer, removes
/// duplicates, and keeps the words in the order in which they first occur:
/// the keywords are exactly the longer words of the list, each once, and a
/// keyword stands before another one exactly where its first occurrence does.
pub proof fn lemma_distinct_keywords(ws: Seq<Seq<char>>)
    ensures
        distinct_keywords(ws).no_duplicates(),
        forall|i: int|
            0 <= i < distinct_keywords(ws).len() ==> (#[trigger] distinct_keywords(ws)[i]).len() > 3,
        forall|x: Seq<char>|
            distinct_keywords(ws).contains(x) <==> (ws.contains(x) && x.len() > 3),
        forall|i: int, j: int|
            0 <= i < j < distinct_keywords(ws).len() ==> first_position(
                ws,
                #[trigger] distinct_keywords(ws)[i],
                0,
            ) < first_position(ws, #[trigger] distinct_keywords(ws)[j], 0),
    decreases ws.len(),
{
    let k = distinct_keywords(ws);
    if ws.len() > 0 {
        let init = ws.drop_last();
        let before = distinct_keywords(init);
        let w = ws.last();
        lemma_distinct_keywords(init);
        assert forall|x: Seq<char>| k.contains(x) <==> (ws.contains(x) && x.len() > 3) by {
            if k.contains(x) {
                let i = choose|i: int| 0 <= i < k.len() && k[i] == x;
                if i < before.len() {
                    assert(before[i] == x);
                    assert(before.contains(x));
                    assert(init.contains(x) && x.len() > 3);
                    let p = choose|p: int| 0 <= p < init.len() && init[p] == x;
                    assert(ws[p] == init[p]);
                } else {
                    assert(ws[ws.len() - 1] == x);
                }
            }
            if ws.contains(x) && x.len() > 3 {
                let p = choose|p: int| 0 <= p < ws.len() && ws[p] == x;
                if p < init.len() {
                    assert(init[p] == x);
                    assert(init.contains(x));
                    assert(before.contains(x));
                    let i = choose|i: int| 0 <= i < before.len() && before[i] == x;
                    assert(k[i] == x);
                } else {
                    if before.contains(x) {
                        let i = choose|i: int| 0 <= i < before.len() && before[i] == x;
                        assert(k[i] == x);
                    } else {
                        assert(k[k.len() - 1] == x);
                    }
                }
            }
        }
        assert forall|i: int| 0 <= i < k.len() implies first_position(ws, #[trigger] k[i], 0) == (
        if i < before.len() {
            first_position(init, before[i], 0)
        } else {
            ws.len() - 1
        }) && first_position(ws, k[i], 0) < ws.len() && (i < before.len() ==> first_position(
            ws,
            k[i],
            0,
        ) < ws.len() - 1) by {
            if i < before.len() {
                assert(k[i] == before[i]);
                assert(before.contains(before[i]));
                assert(init.contains(before[i]));
                lemma_first_position(init, before[i], 0);
                let c = choose|c: int| 0 <= c < init.len() && init[c] == before[i];
                let p = first_position(init, before[i], 0);
                assert(p < init.len()) by {
                    if p >= init.len() {
                        assert(init[c] != before[i]);
                    }
                }
                assert(ws[p] == init[p]);
                assert forall|j: int| 0 <= j < p implies ws[j] != before[i] by {
                    assert(ws[j] == init[j]);
                }
                lemma_first_position_is(ws, before[i], p);
            } else {
                assert(k[i] == w);
                assert(!before.contains(w));
                assert(!init.contains(w));
                assert forall|j: int| 0 <= j < ws.len() - 1 implies ws[j] != w by {
                    assert(init[j] == ws[j]);
                    if ws[j] == w {
                        assert(init.contains(w));
                    }
                }
                lemma_first_position_is(ws, w, ws.len() - 1);
            }
        }
        assert forall|i: int, j: int| 0 <= i < j < k.len() implies first_position(
            ws,
            #[trigger] k[i],
            0,
        ) < first_position(ws, #[trigger] k[j], 0) by {
            if j < before.len() {
                assert(k[i] == before[i]);
                assert(k[j] == before[j]);
                assert(first_position(init, before[i], 0) < first_position(init, before[j], 0));
            } else {
                assert(k[i] == before[i]);
            }
        }
        assert forall|i: int, j: int| 0 <= i < k.len() && 0 <= j < k.len() && i != j implies k[i]
            != k[j] by {
            if i < before.len() && j < before.len() {
                assert(before[i] != before[j]);
            } else if i < before.len() {
                assert(before.contains(before[i]));
            } else if j < before.len() {
                assert(before.contains(before[j]));
            }
        }
    }
}

/// Whether the rows hold the text `x`.
pub fn rows_hold(v: &Vec<Vec<char>>, x: &Vec<char>) -> (r: bool)
    ensures
        r == rows(v@).contains(x@),
{
    let mut i: usize = 0;
    while i < v.len()
        invariant
            i <= v.len(),
            forall|j: int| 0 <= j < i ==> rows(v@)[j] != x@,
        decreases v.len() - i,
    {
        if same(&v[i], x) {
            assert(rows(v@)[i as int] == x@);
            return true;
        }
        i += 1;
    }
    false
}

/// The rows as a list of strings.
pub fn strings_of(v: &Vec<Vec<char>>) -> (r: Vec<String>)
    ensures
        texts(r@) == rows(v@),
{
    let mut r: Vec<String> = Vec::new();
    let mut i: usize = 0;
    assert(texts(r@) =~= rows(v@).take(0));
    while i < v.len()
        invariant
            i <= v.len(),
            texts(r@) == rows(v@).take(i as int),
        decreases v.len() - i,
    {
        let ghost prev = r@;
        r.push(string_of(&v[i]));
        assert(texts(r@) =~= texts(prev).push(v@[i as int]@));
        assert(rows(v@).take(i + 1) =~= rows(v@).take(i as int).push(v@[i as int]@));
        i += 1;
    }
    assert(rows(v@).take(v.len() as int) =~= rows(v@));
    r
}

/// The strings as rows of characters.
pub fn rows_of(v: &Vec<String>) -> (r: Vec<Vec<char>>)
    ensures
        rows(r@) == texts(v@),
{
    let mut r: Vec<Vec<char>> = Vec::new();
    let mut i: usize = 0;
    assert(rows(r@) =~= texts(v@).take(0));
    while i < v.len()
        invariant
            i <= v.len(),
            rows(r@) == texts(v@).take(i as int),
        decreases v.len() - i,
    {
        let ghost prev = r@;
        r.push(chars_of(v[i].as_str()));
        assert(rows(r@) =~= rows(prev).push(v@[i as int]@));
        assert(texts(v@).take(i + 1) =~= texts(v@).take(i as int).push(v@[i as int]@));
        i += 1;
    }
    assert(texts(v@).take(v.len() as int) =~= texts(v@));
    r
}

/// Derives the keywords of a task description: its words in lowercase,
/// without the punctuation at their ends, those of more than three
/// characters, each once, in the order of their first occurrence.
pub fn extract_keywords(task: &str) -> (r: Vec<String>)
    ensures
        texts(r@) == keywords(task@),
{
    let t = chars_of(task);
    let low = to_lower(&t);
    let ws = words_of(&low);
    let mut found: Vec<Vec<char>> = Vec::new();
    let mut i: usize = 0;
    let ghost all = stripped_words(task@);
    assert(all.take(0) =~= Seq::<Seq<char>>::empty());
    assert(rows(found@) =~= Seq::<Seq<char>>::empty());
    while i < ws.len()
        invariant
            i <= ws.len(),
            rows(ws@) == words(lowercase(task@)),
            all == stripped_words(task@),
            rows(found@) == distinct_keywords(all.take(i as int)),
        decreases ws.len() - i,
    {
        let ghost next = all.take(i + 1);
        assert(next.drop_last() =~= all.take(i as int));
        assert(rows(ws@)[i as int] == ws@[i as int]@);
        assert(next.last() == strip(ws@[i as int]@, CharClass::Punctuation));
        let w = strip_of(&ws[i], CharClass::Punctuation);
        if w.len() > 3 && !rows_hold(&found, &w) {
            let ghost prev = found@;
            found.push(w);
            assert(rows(found@) =~= rows(prev).push(next.last()));
        }
        i += 1;
    }
    assert(all.take(ws.len() as int) =~= all);
    strings_of(&found)
}

/// The heading, in lowercase, contains one of the keywords.
pub open spec fn matches_any(heading: Seq<char>, ks: Seq<Seq<char>>) -> bool {
    exists|i: int| 0 <= i < ks.len() && contains(lowercase(heading), #[trigger] ks[i])
}

/// The labels of a list of entries.
pub open spec fn labels_in(v: Seq<SectionModel>) -> Seq<Seq<char>> {
    v.map_values(|s: SectionModel| s.label)
}

/// The entries whose heading contains a keyword, in the order of the index,
/// each label once.
pub open spec fn keyword_selection(index: Seq<SectionModel>, ks: Seq<Seq<char>>) -> Seq<
    SectionModel,
>
    decreases index.len(),
{
    if index.len() == 0 {
        Seq::empty()
    } else {
        let before = keyword_selection(index.drop_last(), ks);
        if matches_any(index.last().heading, ks) && !labels_in(before).contains(index.last().label) {
            before.push(index.last())
        } else {
            before
        }
    }
}

/// Whether the heading, in lowercase, contains one of the keywords.
fn heading_matches_any(heading: &String, ks: &Vec<Vec<char>>) -> (r: bool)
    ensures
        r == matches_any(heading@, rows(ks@)),
{
    let h = chars_of(heading.as_str());
    let low = to_lower(&h);
    let mut i: usize = 0;
    while i < ks.len()
        invariant
            i <= ks.len(),
            low@ == lowercase(heading@),
            forall|j: int| 0 <= j < i ==> !contains(low@, #[trigger] rows(ks@)[j]),
        decreases ks.len() - i,
    {
        assert(rows(ks@)[i as int] == ks@[i as int]@);
        if contains_of(&low, &ks[i]) {
            return true;
        }
        i += 1;
    }
    false
}

/// Selects from the section index by keywords: every entry whose heading
/// contains a keyword, compared in lowercase, in the order of the index and
/// with each label once.
pub fn select_by_keywords(index: &Vec<IndexedSection>, keywords: &Vec<String>) -> (r: Vec<
    IndexedSection,
>)
    ensures
        section_views(r@) == keyword_selection(section_views(index@), texts(keywords@)),
{
    let ks = rows_of(keywords);
    let mut result: Vec<IndexedSection> = Vec::new();
    let mut labels: Vec<Vec<char>> = Vec::new();
    let mut i: usize = 0;
    let ghost all = section_views(index@);
    assert(all.take(0) =~= Seq::<SectionModel>::empty());
    assert(section_views(result@) =~= Seq::<SectionModel>::empty());
    assert(rows(labels@) =~= labels_in(section_views(result@)));
    while i < index.len()
        invariant
            i <= index.len(),
            all == section_views(index@),
            rows(ks@) == texts(keywords@),
            section_views(result@) == keyword_selection(all.take(i as int), rows(ks@)),
            rows(labels@) == labels_in(section_views(result@)),
        decreases index.len() - i,
    {
        let ghost next = all.take(i + 1);
        assert(next.drop_last() =~= all.take(i as int));
        assert(next.last() == index@[i as int]@);
        let entry = &index[i];
        let label = chars_of(entry.label.as_str());
        if heading_matches_any(&entry.heading, &ks) && !rows_hold(&labels, &label) {
            let ghost prev = result@;
            let ghost prev_labels = labels@;
            result.push(copy_section(entry));
            labels.push(label);
            assert(section_views(result@) =~= section_views(prev).push(entry@));
            assert(rows(labels@) =~= rows(prev_labels).push(entry@.label));
            assert(labels_in(section_views(result@)) =~= labels_in(section_views(prev)).push(
                entry@.label,
            ));
        }
        i += 1;
    }
    assert(all.take(index.len() as int) =~= all);
    result
}

/// The topics that a label maps to: those of the first entry of the mapping
/// under that label; none where the mapping has no such entry.
pub open spec fn topics_for(label: Seq<char>, mapping: Seq<(Seq<char>, Seq<Seq<char>>)>, from: int) -> Seq<
    Seq<char>,
>
    decreases mapping.len() - from,
{
    if from < 0 || from >= mapping.len() {
        Seq::empty()
    } else if mapping[from].0 == label {
        mapping[from].1
    } else {
        topics_for(label, mapping, from + 1)
    }
}

/// The topics that the labels map to, one label's after another's.
pub open spec fn mapped_topics(labels: Seq<Seq<char>>, mapping: Seq<(Seq<char>, Seq<Seq<char>>)>) -> Seq<
    Seq<char>,
>
    decreases labels.len(),
{
    if labels.len() == 0 {
        Seq::empty()
    } else {
        mapped_topics(labels.drop_last(), mapping) + topics_for(labels.last(), mapping, 0)
    }
}

/// What a mapping from labels to topics stands for.
pub open spec fn mapping_views(m: Seq<(String, Vec<String>)>) -> Seq<(Seq<char>, Seq<Seq<char>>)> {
    m.map_values(|e: (String, Vec<String>)| (e.0@, texts(e.1@)))
}

/// The topic documents that an issue's labels bring in: the topics that the
/// mapping gives for each label, each once, in dictionary order.
pub fn auto_topics(labels: &Vec<String>, mapping: &Vec<(String, Vec<String>)>) -> (r: Vec<String>)
    ensures
        strictly_sorted(texts(r@)),
        forall|t: Seq<char>|
            texts(r@).contains(t) <==> mapped_topics(texts(labels@), mapping_views(mapping@)).contains(
                t,
            ),
{
    let mut all: Vec<Vec<char>> = Vec::new();
    let mut i: usize = 0;
    let ghost ls = texts(labels@);
    let ghost mv = mapping_views(mapping@);
    assert(ls.take(0) =~= Seq::<Seq<char>>::empty());
    assert(rows(all@) =~= Seq::<Seq<char>>::empty());
    while i < labels.len()
        invariant
            i <= labels.len(),
            ls == texts(labels@),
            mv == mapping_views(mapping@),
            rows(all@) == mapped_topics(ls.take(i as int), mv),
        decreases labels.len() - i,
    {
        let ghost next = ls.take(i + 1);
        assert(next.drop_last() =~= ls.take(i as int));
        assert(next.last() == labels@[i as int]@);
        let label = chars_of(labels[i].as_str());
        let ghost before = rows(all@);
        let mut j: usize = 0;
        let mut done = false;
        while j < mapping.len() && !done
            invariant
                j <= mapping.len(),
                mv == mapping_views(mapping@),
                label@ == labels@[i as int]@,
                !done ==> topics_for(label@, mv, 0) == topics_for(label@, mv, j as int) && rows(
                    all@,
                ) == before,
                done ==> rows(all@) == before + topics_for(label@, mv, 0),
            decreases mapping.len() - j + if done { 0int } else { 1int },
        {
            assert(mv[j as int] == (mapping@[j as int].0@, texts(mapping@[j as int].1@)));
            let key = chars_of(mapping[j].0.as_str());
            if same(&key, &label) {
                let topics = &mapping[j].1;
                let mut t: usize = 0;
                assert(before + texts(topics@).take(0) =~= before);
                while t < topics.len()
                    invariant
                        t <= topics.len(),
                        rows(all@) == before + texts(topics@).take(t as int),
                    decreases topics.len() - t,
                {
                    let ghost prev = all@;
                    all.push(chars_of(topics[t].as_str()));
                    assert(rows(all@) =~= rows(prev).push(topics@[t as int]@));
                    assert(texts(topics@).take(t + 1) =~= texts(topics@).take(t as int).push(
                        topics@[t as int]@,
                    ));
                    t += 1;
                }
                assert(texts(topics@).take(topics.len() as int) =~= texts(topics@));
                done = true;
            } else {
                j += 1;
            }
        }
        if !done {
            assert(before + Seq::<Seq<char>>::empty() =~= before);
        }
        i += 1;
    }
    assert(ls.take(labels.len() as int) =~= ls);
    let sorted = sorted_set(&all);
    strings_of(&sorted)
}

/// The topics to take whole when an issue brings its own: those asked for
/// and those of the issue's labels together, each once, in dictionary order.
pub fn merge_topics(asked: &Vec<String>, auto: &Vec<String>) -> (r: Vec<String>)
    ensures
        strictly_sorted(texts(r@)),
        forall|t: Seq<char>|
            texts(r@).contains(t) <==> (texts(asked@).contains(t) || texts(auto@).contains(t)),
{
    let a = rows_of(asked);
    let b = rows_of(auto);
    let mut all: Vec<Vec<char>> = Vec::new();
    let mut i: usize = 0;
    assert(rows(all@) =~= rows(a@).take(0));
    while i < a.len()
        invariant
            i <= a.len(),
            rows(all@) == rows(a@).take(i as int),
        decreases a.len() - i,
    {
        let ghost prev = all@;
        all.push(copy_of(&a[i]));
        assert(rows(all@) =~= rows(prev).push(a@[i as int]@));
        assert(rows(a@).take(i + 1) =~= rows(a@).take(i as int).push(a@[i as int]@));
        i += 1;
    }
    assert(rows(a@).take(a.len() as int) =~= rows(a@));
    let mut j: usize = 0;
    assert(rows(all@) =~= rows(a@) + rows(b@).take(0));
    while j < b.len()
        invariant
            j <= b.len(),
            rows(all@) == rows(a@) + rows(b@).take(j as int),
        decreases b.len() - j,
    {
        let ghost prev = all@;
        all.push(copy_of(&b[j]));
        assert(rows(all@) =~= rows(prev).push(b@[j as int]@));
        assert(rows(b@).take(j + 1) =~= rows(b@).take(j as int).push(b@[j as int]@));
        j += 1;
    }
    assert(rows(b@).take(b.len() as int) =~= rows(b@));
    let ghost joined = rows(a@) + rows(b@);
    assert forall|t: Seq<char>| joined.contains(t) <==> (rows(a@).contains(t) || rows(b@).contains(
        t,
    )) by {
        if joined.contains(t) {
            let k = choose|k: int| 0 <= k < joined.len() && joined[k] == t;
            if k < rows(a@).len() {
                assert(rows(a@)[k] == t);
            } else {
                assert(rows(b@)[k - rows(a@).len()] == t);
            }
        }
        if rows(a@).contains(t) {
            let k = choose|k: int| 0 <= k < rows(a@).len() && rows(a@)[k] == t;
            assert(joined[k] == t);
        }
        if rows(b@).contains(t) {
            let k = choose|k: int| 0 <= k < rows(b@).len() && rows(b@)[k] == t;
            assert(joined[rows(a@).len() + k] == t);
        }
    }
    let sorted = sorted_set(&all);
    strings_of(&sorted)
}

/// Every keyword of a task description is a word of its lowercase form
/// without the punctuation at its ends, is longer than three characters, and
/// occurs once; the keywords stand in the order of their first occurrence.
pub proof fn lemma_keywords(task: Seq<char>)
    ensures
        keywords(task).no_duplicates(),
        forall|i: int|
            0 <= i < keywords(task).len() ==> (#[trigger] keywords(task)[i]).len() > 3 && exists|
                p: int,
            |
                0 <= p < words(lowercase(task)).len() && keywords(task)[i] == strip(
                    #[trigger] words(lowercase(task))[p],
                    CharClass::Punctuation,
                ),
        forall|p: int|
            0 <= p < words(lowercase(task)).len() && strip(
                #[trigger] words(lowercase(task))[p],
                CharClass::Punctuation,
            ).len() > 3 ==> keywords(task).contains(
                strip(words(lowercase(task))[p], CharClass::Punctuation),
            ),
        forall|i: int, j: int|
            0 <= i < j < keywords(task).len() ==> first_position(
                stripped_words(task),
                #[trigger] keywords(task)[i],
                0,
            ) < first_position(stripped_words(task), #[trigger] keywords(task)[j], 0),
{
    let ws = words(lowercase(task));
    let sw = stripped_words(task);
    let k = keywords(task);
    lemma_distinct_keywords(sw);
    assert forall|i: int| 0 <= i < k.len() implies (#[trigger] k[i]).len() > 3 && exists|p: int|
        0 <= p < ws.len() && k[i] == strip(#[trigger] ws[p], CharClass::Punctuation) by {
        assert(k.contains(k[i]));
        assert(sw.contains(k[i]));
        let p = choose|p: int| 0 <= p < sw.len() && sw[p] == k[i];
        assert(sw[p] == strip(ws[p], CharClass::Punctuation));
    }
    assert forall|p: int|
        0 <= p < ws.len() && strip(#[trigger] ws[p], CharClass::Punctuation).len()
            > 3 implies k.contains(strip(ws[p], CharClass::Punctuation)) by {
        assert(sw[p] == strip(ws[p], CharClass::Punctuation));
        assert(sw.contains(sw[p]));
    }
}

/// The text, with a newline after it unless it ends in one.
pub open spec fn ensure_newline(t: Seq<char>) -> Seq<char> {
    if t.len() > 0 && t.last() == '\n' {
        t
    } else {
        t + seq!['\n']
    }
}

/// The first `n` lines of a text, each with its newline.
pub open spec fn first_lines(source: Seq<char>, n: nat) -> Seq<char> {
    line_window(source, 1, n) + seq!['\n']
}

/// The excerpt of the overview document: its sections `Project Summary`,
/// `Technology Stack` and `Build` where it has all three; the summary alone
/// where it has that; else its first 40 lines.
pub open spec fn catme_excerpt(catme: Seq<char>) -> Seq<char> {
    match section(catme, "Project Summary"@) {
        Some(s) => match (section(catme, "Technology Stack"@), section(catme, "Build"@)) {
            (Some(t), Some(b)) => s + "\n\n"@ + t + "\n\n"@ + b + seq!['\n'],
            _ => s + seq!['\n'],
        },
        None => first_lines(catme, 40),
    }
}

/// The header of a document for a task without an issue.
pub open spec fn task_header_text(task: Seq<char>) -> Seq<char> {
    if task.len() == 0 {
        "# Task Context\n\n"@
    } else {
        "# Task Context\n\n## Task\n\n"@ + task + "\n\n"@
    }
}

/// A topic document that goes into the composed document whole.
#[derive(Debug, Clone)]
pub struct TopicDocument {
    /// The topic's name: its file's name without the extension.
    pub name: String,
    /// The text of the file.
    pub content: String,
}

/// A selected section with the text of its document, where that could be read.
#[derive(Debug, Clone)]
pub struct SectionSource {
    pub section: IndexedSection,
    pub content: Option<String>,
}

/// What a topic document stands for.
pub struct TopicModel {
    pub name: Seq<char>,
    pub content: Seq<char>,
}

/// What a selected section stands for.
pub struct SourceModel {
    pub file: Seq<char>,
    pub heading: Seq<char>,
    pub content: Option<Seq<char>>,
}

impl View for TopicDocument {
    type V = TopicModel;

    open spec fn view(&self) -> TopicModel {
        TopicModel { name: self.name@, content: self.content@ }
    }
}

impl View for SectionSource {
    type V = SourceModel;

    open spec fn view(&self) -> SourceModel {
        SourceModel {
            file: self.section.file@,
            heading: self.section.heading@,
            content: crate::issues::models::opt_text(self.content),
        }
    }
}

/// What a list of topic documents stands for.
pub open spec fn topic_views(v: Seq<TopicDocument>) -> Seq<TopicModel> {
    v.map_values(|t: TopicDocument| t@)
}

/// What a list of selected sections stands for.
pub open spec fn source_views(v: Seq<SectionSource>) -> Seq<SourceModel> {
    v.map_values(|s: SectionSource| s@)
}

/// The block of one topic document: its name as a heading, then its text.
pub open spec fn topic_block(t: TopicModel) -> Seq<char> {
    "## "@ + t.name + "\n\n"@ + ensure_newline(t.content) + seq!['\n']
}

/// The blocks of the topic documents, in order.
pub open spec fn topics_text(ts: Seq<TopicModel>) -> Seq<char>
    decreases ts.len(),
{
    if ts.len() == 0 {
        Seq::empty()
    } else {
        topics_text(ts.drop_last()) + topic_block(ts.last())
    }
}

/// The text that one selected section adds: its section as the heading
/// model extracts it; nothing where the document could not be read or has no
/// such section.
pub open spec fn section_text(s: SourceModel) -> Seq<char> {
    match s.content {
        Some(c) => match section(c, s.heading) {
            Some(t) => ensure_newline(t) + seq!['\n'],
            None => Seq::empty(),
        },
        None => Seq::empty(),
    }
}

/// The sub-heading that names the document of the `i`-th selected section,
/// written where that document differs from the one of the section before.
pub open spec fn group_heading(llmd: Seq<char>, ss: Seq<SourceModel>, i: int) -> Seq<char> {
    if i > 0 && ss[i - 1].file == ss[i].file {
        Seq::empty()
    } else {
        "### "@ + document_label(llmd, ss[i].file) + "\n\n"@
    }
}

/// The texts of the first `n` selected sections, grouped by document.
pub open spec fn sections_text(llmd: Seq<char>, ss: Seq<SourceModel>, n: nat) -> Seq<char>
    decreases n,
{
    if n == 0 {
        Seq::empty()
    } else {
        sections_text(llmd, ss, (n - 1) as nat) + group_heading(llmd, ss, n - 1) + section_text(
            ss[n - 1],
        )
    }
}

/// The part of the document that holds the selected sections; nothing where
/// none is selected.
pub open spec fn relevant_sections(llmd: Seq<char>, ss: Seq<SourceModel>) -> Seq<char> {
    if ss.len() == 0 {
        Seq::empty()
    } else {
        "## Relevant Sections\n\n"@ + sections_text(llmd, ss, ss.len())
    }
}

/// The composed document: the header, the overview excerpt, each topic
/// document whole, then the selected sections.
pub open spec fn document(
    header: Seq<char>,
    excerpt: Seq<char>,
    llmd: Seq<char>,
    topics: Seq<TopicModel>,
    ss: Seq<SourceModel>,
) -> Seq<char> {
    header + "## Project Overview\n\n"@ + excerpt + seq!['\n'] + topics_text(topics)
        + relevant_sections(llmd, ss)
}

/// Appends the text, and a newline unless it ends in one.
fn push_with_newline(out: &mut Vec<char>, t: &Vec<char>)
    ensures
        final(out)@ == old(out)@ + ensure_newline(t@),
{
    push_all(out, t);
    if !(t.len() > 0 && t[t.len() - 1] == '\n') {
        out.push('\n');
        assert(out@ =~= old(out)@ + ensure_newline(t@));
    }
}

/// The excerpt of the overview document for a composed document.
pub fn extract_catme_excerpt(catme: &str) -> (r: String)
    ensures
        r@ == catme_excerpt(catme@),
{
    match extract_section(catme, "Project Summary") {
        Some(s) => {
            let mut out = chars_of(s.as_str());
            match (extract_section(catme, "Technology Stack"), extract_section(catme, "Build")) {
                (Some(t), Some(b)) => {
                    push_str(&mut out, "\n\n");
                    push_str(&mut out, t.as_str());
                    push_str(&mut out, "\n\n");
                    push_str(&mut out, b.as_str());
                    out.push('\n');
                    assert(out@ =~= s@ + "\n\n"@ + t@ + "\n\n"@ + b@ + seq!['\n']);
                },
                _ => {
                    out.push('\n');
                    assert(out@ =~= s@ + seq!['\n']);
                },
            }
            string_of(&out)
        },
        None => {
            let w = window(catme, 1, 40);
            let mut out = chars_of(w.as_str());
            out.push('\n');
            assert(out@ =~= first_lines(catme@, 40));
            string_of(&out)
        },
    }
}

/// The header of a document for a task without an issue.
pub fn task_header(task: &str) -> (r: String)
    ensures
        r@ == task_header_text(task@),
{
    let t = chars_of(task);
    if t.len() == 0 {
        string_of(&chars_of("# Task Context\n\n"))
    } else {
        let mut out = chars_of("# Task Context\n\n## Task\n\n");
        push_all(&mut out, &t);
        push_str(&mut out, "\n\n");
        string_of(&out)
    }
}

/// Assembles the composed document, in its fixed order: the header; the
/// overview excerpt; each topic document whole, under its name; then, where
/// sections are selected, their texts grouped by document, with a
/// sub-heading wherever the document changes from one selection to the next.
pub fn build_document(
    header: &str,
    catme_excerpt: &str,
    llmd: &str,
    topics: &Vec<TopicDocument>,
    sections: &Vec<SectionSource>,
) -> (r: String)
    ensures
        r@ == document(
            header@,
            catme_excerpt@,
            llmd@,
            topic_views(topics@),
            source_views(sections@),
        ),
{
    let root = chars_of(llmd);
    let mut doc = chars_of(header);
    push_str(&mut doc, "## Project Overview\n\n");
    push_str(&mut doc, catme_excerpt);
    doc.push('\n');
    let ghost start = doc@;
    assert(start =~= header@ + "## Project Overview\n\n"@ + catme_excerpt@ + seq!['\n']);
    let ghost tv = topic_views(topics@);
    let mut i: usize = 0;
    assert(tv.take(0) =~= Seq::<TopicModel>::empty());
    assert(doc@ =~= start + topics_text(tv.take(0)));
    while i < topics.len()
        invariant
            i <= topics.len(),
            tv == topic_views(topics@),
            doc@ == start + topics_text(tv.take(i as int)),
        decreases topics.len() - i,
    {
        let ghost next = tv.take(i + 1);
        assert(next.drop_last() =~= tv.take(i as int));
        assert(next.last() == topics@[i as int]@);
        let ghost before = doc@;
        push_str(&mut doc, "## ");
        push_str(&mut doc, topics[i].name.as_str());
        push_str(&mut doc, "\n\n");
        let content = chars_of(topics[i].content.as_str());
        push_with_newline(&mut doc, &content);
        doc.push('\n');
        assert(doc@ =~= before + topic_block(topics@[i as int]@));
        assert(doc@ =~= start + topics_text(next));
        i += 1;
    }
    assert(tv.take(topics.len() as int) =~= tv);
    let ghost mid = doc@;
    let ghost sv = source_views(sections@);
    if sections.len() > 0 {
        push_str(&mut doc, "## Relevant Sections\n\n");
        let ghost opened = doc@;
        let mut j: usize = 0;
        assert(doc@ =~= opened + sections_text(llmd@, sv, 0));
        while j < sections.len()
            invariant
                j <= sections.len(),
                root@ == llmd@,
                sv == source_views(sections@),
                doc@ == opened + sections_text(llmd@, sv, j as nat),
            decreases sections.len() - j,
        {
            let ghost before = doc@;
            let s = &sections[j];
            assert(sv[j as int] == s@);
            let file = chars_of(s.section.file.as_str());
            let mut fresh = true;
            if j > 0 {
                assert(sv[j - 1] == sections@[j - 1]@);
                let prev = chars_of(sections[j - 1].section.file.as_str());
                if same(&prev, &file) {
                    fresh = false;
                }
            }
            if fresh {
                push_str(&mut doc, "### ");
                let label = document_label_of(&root, &file);
                push_all(&mut doc, &label);
                push_str(&mut doc, "\n\n");
                assert(doc@ =~= before + group_heading(llmd@, sv, j as int));
            } else {
                assert(doc@ =~= before + group_heading(llmd@, sv, j as int));
            }
            let ghost headed = doc@;
            match &s.content {
                Some(c) => match extract_section(c.as_str(), s.section.heading.as_str()) {
                    Some(t) => {
                        let text = chars_of(t.as_str());
                        push_with_newline(&mut doc, &text);
                        doc.push('\n');
                        assert(doc@ =~= headed + section_text(s@));
                    },
                    None => {
                        assert(doc@ =~= headed + section_text(s@));
                    },
                },
                None => {
                    assert(doc@ =~= headed + section_text(s@));
                },
            }
            assert(doc@ =~= opened + sections_text(llmd@, sv, (j + 1) as nat));
            j += 1;
        }
        assert(doc@ =~= mid + relevant_sections(llmd@, sv));
    } else {
        assert(doc@ =~= mid + relevant_sections(llmd@, sv));
    }
    string_of(&doc)
}

/// The frontmatter of an issue file as the composer reads it: what stands
/// between the opening marker and the first newline that `---` follows, or
/// the end; `None` where the text does not begin with the marker.
pub open spec fn front_text(content: Seq<char>) -> Option<Seq<char>> {
    if starts_with(content, "---\n"@) {
        Some(first_piece(content.skip("---\n"@.len() as int), "\n---"@))
    } else {
        None
    }
}

/// The label names that the lines from `i` on give, where `in_labels` says
/// whether a block of labels is open. The block ends at a line that is not
/// blank and not indented.
pub open spec fn names_from(ls: Seq<Seq<char>>, i: int, in_labels: bool) -> Seq<Seq<char>>
    decreases ls.len() - i,
{
    if i < 0 || i >= ls.len() {
        Seq::empty()
    } else if starts_with(ls[i], "labels:"@) {
        flow_items(ls[i]) + names_from(ls, i + 1, true)
    } else if !in_labels {
        names_from(ls, i + 1, false)
    } else if indent(ls[i]) == 0 && trim(ls[i]).len() > 0 {
        names_from(ls, i + 1, false)
    } else if contains(ls[i], "name:"@) && entry_name(ls[i]).len() > 0 {
        seq![entry_name(ls[i])] + names_from(ls, i + 1, true)
    } else {
        names_from(ls, i + 1, true)
    }
}

/// The label names of an issue file.
pub open spec fn label_names(content: Seq<char>) -> Seq<Seq<char>> {
    match front_text(content) {
        Some(fm) => names_from(lines(fm), 0, false),
        None => Seq::empty(),
    }
}

/// Index of the first line at or after `i` that opens the field `title`.
pub open spec fn title_line(ls: Seq<Seq<char>>, i: int) -> int
    decreases ls.len() - i,
{
    if i < 0 || i >= ls.len() {
        ls.len() as int
    } else if opens(ls[i], "title:"@) {
        i
    } else {
        title_line(ls, i + 1)
    }
}

/// The title of an issue file: the value of the first line that opens the
/// field `title`, where it is not empty.
pub open spec fn title_of(content: Seq<char>) -> Option<Seq<char>> {
    match front_text(content) {
        Some(fm) => {
            let ls = lines(fm);
            let i = title_line(ls, 0);
            if i < ls.len() {
                match split_once(ls[i], ':') {
                    Some(p) => non_empty(Some(clean(p.1))),
                    None => None,
                }
            } else {
                None
            }
        },
        None => None,
    }
}

/// The body of an issue file as the composer reads it: what stands between
/// the first and the second line `---` after the opening marker, trimmed.
pub open spec fn body_of(content: Seq<char>) -> Option<Seq<char>> {
    if starts_with(content, "---\n"@) {
        match second_piece(content.skip("---\n"@.len() as int), "\n---\n"@) {
            Some(b) => Some(trim(b)),
            None => None,
        }
    } else {
        None
    }
}

/// The header of a document composed for an issue.
pub open spec fn issue_header(content: Seq<char>, reference: Seq<char>) -> Seq<char> {
    let names = label_names(content);
    let labels = if names.len() == 0 {
        Seq::empty()
    } else {
        " \u{b7} "@ + join(names, ", "@)
    };
    "# Context: #"@ + reference + seq![' '] + or_text(title_of(content), "Untitled"@)
        + "\n\n## Issue\n\n**#"@ + reference + "**"@ + labels + "\n\n"@ + or_text(
        body_of(content),
        Seq::empty(),
    ) + "\n\n"@
}

/// The frontmatter of an issue file as the composer reads it.
fn front_text_of(content: &Vec<char>) -> (r: Option<Vec<char>>)
    ensures
        match front_text(content@) {
            Some(t) => r matches Some(x) && x@ == t,
            None => r is None,
        },
{
    let open = chars_of("---\n");
    if !matches_at(content, &open, 0) {
        return None;
    }
    let rest = slice(content, open.len(), content.len());
    assert(rest@ =~= content@.skip(open.len() as int));
    let close = chars_of("\n---");
    Some(first_piece_of(&rest, &close))
}

/// Extracts the label names from the frontmatter of an issue file: those of
/// a flow list `labels: [a, b]` and those of the entries `- name: a` of the
/// block under it.
pub fn extract_labels_from_frontmatter(content: &str) -> (r: Vec<String>)
    ensures
        texts(r@) == label_names(content@),
{
    let text = chars_of(content);
    let fm = match front_text_of(&text) {
        Some(fm) => fm,
        None => {
            let r: Vec<String> = Vec::new();
            assert(texts(r@) =~= Seq::<Seq<char>>::empty());
            return r;
        },
    };
    let ls = lines_of(&fm);
    let mut names: Vec<Vec<char>> = Vec::new();
    let mut in_labels = false;
    let mut i: usize = 0;
    let ghost all = rows(ls@);
    assert(rows(names@) =~= Seq::<Seq<char>>::empty());
    assert(rows(names@) + names_from(all, 0, false) =~= names_from(all, 0, false));
    while i < ls.len()
        invariant
            i <= ls.len(),
            all == rows(ls@),
            rows(names@) + names_from(all, i as int, in_labels) == names_from(all, 0, false),
        decreases ls.len() - i,
    {
        let line = &ls[i];
        assert(all[i as int] == line@);
        let ghost before = rows(names@);
        let ghost tail = names_from(all, i as int, in_labels);
        if crate::text::starts_with_str(line, "labels:") {
            let items = flow_items_of(line);
            let mut n: usize = 0;
            assert(before + rows(items@).take(0) =~= before);
            while n < items.len()
                invariant
                    n <= items.len(),
                    rows(names@) == before + rows(items@).take(n as int),
                decreases items.len() - n,
            {
                let ghost prev = names@;
                names.push(copy_of(&items[n]));
                assert(rows(names@) =~= rows(prev).push(items@[n as int]@));
                assert(rows(items@).take(n + 1) =~= rows(items@).take(n as int).push(
                    items@[n as int]@,
                ));
                n += 1;
            }
            assert(rows(items@).take(items.len() as int) =~= rows(items@));
            in_labels = true;
            assert(rows(names@) + names_from(all, i + 1, true) =~= before + tail);
        } else if in_labels {
            let w = span_in(line, 0, line.len(), CharClass::Whitespace);
            assert(line@.subrange(0, line.len() as int) =~= line@);
            let t = trim_of(line);
            if w == 0 && t.len() > 0 {
                in_labels = false;
            } else if contains_of(line, &chars_of("name:")) {
                let name = entry_name_of(line);
                if name.len() > 0 {
                    let ghost prev = names@;
                    names.push(name);
                    assert(rows(names@) =~= rows(prev).push(entry_name(line@)));
                    assert(rows(names@) + names_from(all, i + 1, true) =~= before + tail);
                }
            }
        }
        i += 1;
    }
    assert(rows(names@) + Seq::<Seq<char>>::empty() =~= rows(names@));
    strings_of(&names)
}

/// The title in the frontmatter of an issue file.
fn extract_title(content: &Vec<char>) -> (r: Option<Vec<char>>)
    ensures
        match title_of(content@) {
            Some(t) => r matches Some(x) && x@ == t,
            None => r is None,
        },
{
    let fm = match front_text_of(content) {
        Some(fm) => fm,
        None => {
            return None;
        },
    };
    let ls = lines_of(&fm);
    let mut i: usize = 0;
    while i < ls.len()
        invariant
            i <= ls.len(),
            rows(ls@) == lines(fm@),
            front_text(content@) == Some(fm@),
            title_line(rows(ls@), 0) == title_line(rows(ls@), i as int),
        decreases ls.len() - i,
    {
        assert(rows(ls@)[i as int] == ls@[i as int]@);
        if opens_of(&ls[i], "title:") {
            return match split_once_of(&ls[i], ':') {
                Some(p) => {
                    let v = clean_of(&p.1);
                    if v.len() > 0 {
                        Some(v)
                    } else {
                        None
                    }
                },
                None => None,
            };
        }
        i += 1;
    }
    None
}

/// Extracts the label names and the title from the frontmatter of an issue file.
pub fn extract_labels_and_title_from_frontmatter(content: &str) -> (r: (Vec<String>, Option<String>))
    ensures
        texts(r.0@) == label_names(content@),
        crate::issues::models::opt_text(r.1) == title_of(content@),
{
    let labels = extract_labels_from_frontmatter(content);
    let text = chars_of(content);
    let title = match extract_title(&text) {
        Some(t) => Some(string_of(&t)),
        None => None,
    };
    (labels, title)
}

/// Extracts the body of an issue file: the text after the frontmatter, trimmed.
pub fn extract_issue_body(content: &str) -> (r: Option<String>)
    ensures
        crate::issues::models::opt_text(r) == body_of(content@),
{
    let text = chars_of(content);
    let open = chars_of("---\n");
    if !matches_at(&text, &open, 0) {
        return None;
    }
    let rest = slice(&text, open.len(), text.len());
    assert(rest@ =~= content@.skip(open.len() as int));
    let mark = chars_of("\n---\n");
    match second_piece_of(&rest, &mark) {
        Some(b) => {
            let t = trim_of(&b);
            Some(string_of(&t))
        },
        None => None,
    }
}

/// Reads an issue file for a composed document: returns the label names and
/// the header, which names the issue by the reference it was asked for
/// under, with its title, its labels and its body.
pub fn parse_issue_frontmatter(content: &str, id_or_slug: &str) -> (r: (Vec<String>, String))
    ensures
        texts(r.0@) == label_names(content@),
        r.1@ == issue_header(content@, id_or_slug@),
{
    let (labels, title) = extract_labels_and_title_from_frontmatter(content);
    let body = extract_issue_body(content);
    let mut out = chars_of("# Context: #");
    push_str(&mut out, id_or_slug);
    out.push(' ');
    match &title {
        Some(t) => push_str(&mut out, t.as_str()),
        None => push_str(&mut out, "Untitled"),
    }
    push_str(&mut out, "\n\n## Issue\n\n**#");
    push_str(&mut out, id_or_slug);
    push_str(&mut out, "**");
    let ghost head = out@;
    if labels.len() > 0 {
        push_str(&mut out, " \u{b7} ");
        let names = rows_of(&labels);
        let sep = chars_of(", ");
        let joined = join_of(&names, &sep);
        push_all(&mut out, &joined);
    } else {
        assert(out@ =~= head + Seq::<char>::empty());
    }
    let ghost labelled = out@;
    push_str(&mut out, "\n\n");
    match &body {
        Some(b) => push_str(&mut out, b.as_str()),
        None => {
            assert(out@ =~= labelled + "\n\n"@ + Seq::<char>::empty());
        },
    }
    push_str(&mut out, "\n\n");
    assert(out@ =~= issue_header(content@, id_or_slug@));
    (labels, string_of(&out))
}

/// The sections that the arguments select from the index by their positions.
pub fn selected_sections(index: &Vec<IndexedSection>, args: &ComposeArgs) -> (r: Result<
    Vec<IndexedSection>,
    SelectionError,
>)
    ensures
        match r {
            Ok(v) => first_bad(args.sections@, index@.len(), 0) == args.sections@.len()
                && section_views(v@) == entries_at(
                section_views(index@),
                first_occurrences(args.sections@),
            ),
            Err(e) => first_bad(args.sections@, index@.len(), 0) < args.sections@.len() && e.index
                == args.sections@[first_bad(args.sections@, index@.len(), 0)] && e.count
                == index@.len(),
        },
{
    resolve_sections_from_indices(index, &args.sections)
}

/// The topics that an issue's labels bring in are taken: the document is
/// composed for an issue, and the arguments do not leave them out.
pub open spec fn takes_auto_topics(args: ComposeArgs) -> bool {
    args.issue is Some && !args.no_auto_include
}

/// The topic documents that go into the composed document whole: those that
/// the arguments ask for, as they were given; where the topics of an issue's
/// labels are taken, these and those together, each once, in dictionary order.
pub fn topics_to_take(args: &ComposeArgs, auto: &Vec<String>) -> (r: Vec<String>)
    ensures
        !takes_auto_topics(*args) ==> texts(r@) == texts(args.topics@),
        takes_auto_topics(*args) ==> strictly_sorted(texts(r@)) && forall|t: Seq<char>|
            texts(r@).contains(t) <==> (texts(args.topics@).contains(t) || texts(auto@).contains(t)),
{
    if args.issue.is_some() && !args.no_auto_include {
        merge_topics(&args.topics, auto)
    } else {
        let rows = rows_of(&args.topics);
        strings_of(&rows)
    }
}

} // verus!
