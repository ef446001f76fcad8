//! The frontmatter codec: reads an issue from its text form and writes it
//! back.
//!
//! The text form is a line `---`, the fields, a line `---`, an empty line
//! and the body. The reader is a line scanner for a narrow grammar: scalar
//! fields `key: value`, flow lists `[a, b]`, and a block list of labels.

use vstd::prelude::*;
use crate::issues::models::{label_views, Issue, IssueModel, Label, LabelModel};
use crate::number::{
    decimal, decimal_of, parse_u32, parse_u32_of,
};
use crate::text::{
    chars_of, copy_of, find, find_in, first_word, first_word_of, indent_width, indent_width_of,
    is_letter, is_letter_or_digit, char_is_letter, char_is_letter_or_digit, is_str, join, join_of,
    lines, lines_of, lowercase, push_all, push_str, rows, second_piece, second_piece_of, slice,
    split, split_of, split_once, split_once_of, starts_with, starts_with_str, string_of, strip,
    strip_of, strip_start_of, to_lower, trim, trim_of, trim_start, words, words_of, CharClass,
};

verus! {

/// `s` without double quotes, then single quotes, at both ends.
pub open spec fn unquote(s: Seq<char>) -> Seq<char> {
    strip(strip(s, CharClass::Only('"')), CharClass::Only('\''))
}

/// A scalar value as written: trimmed and without quotes.
pub open spec fn clean(s: Seq<char>) -> Seq<char> {
    unquote(trim(s))
}

/// What follows the first `:` of a line, trimmed; empty where the line has none.
pub open spec fn after_colon(line: Seq<char>) -> Seq<char> {
    match split_once(line, ':') {
        Some(p) => trim(p.1),
        None => Seq::empty(),
    }
}

/// The inside of a flow list `[...]`; `None` where `s` is not in brackets.
pub open spec fn bracket_inner(s: Seq<char>) -> Option<Seq<char>> {
    if s.len() >= 2 && s[0] == '[' && s.last() == ']' {
        Some(s.subrange(1, s.len() - 1))
    } else {
        None
    }
}

/// The frontmatter, trimmed, and the raw body of an issue file: the text
/// must begin with `---` and a newline; the frontmatter ends before the first
/// newline that `---` follows, and one newline after that marker belongs to
/// neither part.
pub open spec fn split_frontmatter_text(content: Seq<char>) -> Option<(Seq<char>, Seq<char>)> {
    if !starts_with(content, "---\n"@) {
        None
    } else {
        let rest = content.skip("---\n"@.len() as int);
        match find(rest, "\n---"@) {
            None => None,
            Some(i) => {
                let after = rest.skip(i + "\n---"@.len());
                let body = if after.len() > 0 && after[0] == '\n' {
                    after.skip(1)
                } else {
                    after
                };
                Some((trim(rest.take(i)), body))
            },
        }
    }
}

/// The state of the scalar scanner between two lines.
pub struct ScanState {
    pub map: Map<Seq<char>, Seq<char>>,
    pub key: Seq<char>,
    pub value: Seq<char>,
    pub in_key: bool,
}

/// The line opens a field: it begins with a letter or an underscore.
pub open spec fn starts_field(line: Seq<char>) -> bool {
    line.len() > 0 && (is_letter(line[0]) || line[0] == '_')
}

/// The line begins with `c`.
pub open spec fn first_is(line: Seq<char>, c: char) -> bool {
    line.len() > 0 && line[0] == c
}

/// The map with the field that the scanner holds put in, if it holds one.
pub open spec fn flushed(st: ScanState) -> Map<Seq<char>, Seq<char>> {
    if st.key.len() > 0 {
        st.map.insert(st.key, clean(st.value))
    } else {
        st.map
    }
}

/// One step of the scalar scanner. A blank line changes nothing. A line that
/// opens a field stores the field held so far and, where it has a `:`, holds
/// the new one. A line that begins with `-` under a field is a list item and
/// is passed over. An indented line continues a non-empty value.
pub open spec fn scan_line(st: ScanState, line: Seq<char>) -> ScanState {
    if trim(line).len() == 0 {
        st
    } else if starts_field(line) {
        match split_once(line, ':') {
            Some(p) => ScanState {
                map: flushed(st),
                key: trim(p.0),
                value: clean(p.1),
                in_key: false,
            },
            None => ScanState { map: flushed(st), key: st.key, value: st.value, in_key: st.in_key },
        }
    } else if first_is(line, '-') && st.key.len() > 0 {
        st
    } else if !st.in_key && st.value.len() > 0 && first_is(line, ' ') {
        ScanState {
            map: st.map,
            key: st.key,
            value: st.value + seq![' '] + trim(line),
            in_key: st.in_key,
        }
    } else {
        st
    }
}

/// The scanner's state after the given lines.
pub open spec fn scan_lines(ls: Seq<Seq<char>>) -> ScanState
    decreases ls.len(),
{
    if ls.len() == 0 {
        ScanState { map: Map::empty(), key: Seq::empty(), value: Seq::empty(), in_key: true }
    } else {
        scan_line(scan_lines(ls.drop_last()), ls.last())
    }
}

/// The scalar fields of a frontmatter: each key with its last value.
pub open spec fn scalars(fm: Seq<char>) -> Map<Seq<char>, Seq<char>> {
    flushed(scan_lines(lines(fm)))
}

/// The map that a list of entries builds, a later entry replacing an
/// earlier one with the same key.
pub open spec fn entries_map(e: Seq<(Vec<char>, Vec<char>)>) -> Map<Seq<char>, Seq<char>>
    decreases e.len(),
{
    if e.len() == 0 {
        Map::empty()
    } else {
        entries_map(e.drop_last()).insert(e.last().0@, e.last().1@)
    }
}

/// The scalar fields read from a frontmatter.
pub struct Fields {
    pub entries: Vec<(Vec<char>, Vec<char>)>,
}

impl View for Fields {
    type V = Map<Seq<char>, Seq<char>>;

    open spec fn view(&self) -> Map<Seq<char>, Seq<char>> {
        entries_map(self.entries@)
    }
}

/// The value under `key`, if the map has one.
pub open spec fn field(m: Map<Seq<char>, Seq<char>>, key: Seq<char>) -> Option<Seq<char>> {
    if m.contains_key(key) {
        Some(m[key])
    } else {
        None
    }
}

impl Fields {
    /// The value of the field `key`.
    pub fn get(&self, key: &str) -> (r: Option<Vec<char>>)
        ensures
            match field(self@, key@) {
                Some(v) => r matches Some(x) && x@ == v,
                None => r is None,
            },
    {
        let k = chars_of(key);
        let mut found: Option<Vec<char>> = None;
        let mut i: usize = 0;
        assert(self.entries@.take(0) =~= Seq::<(Vec<char>, Vec<char>)>::empty());
        while i < self.entries.len()
            invariant
                i <= self.entries.len(),
                k@ == key@,
                match field(entries_map(self.entries@.take(i as int)), key@) {
                    Some(v) => found matches Some(x) && x@ == v,
                    None => found is None,
                },
            decreases self.entries.len() - i,
        {
            let ghost next = self.entries@.take(i + 1);
            assert(next.drop_last() =~= self.entries@.take(i as int));
            assert(next.last() == self.entries@[i as int]);
            if crate::text::same(&self.entries[i].0, &k) {
                found = Some(copy_of(&self.entries[i].1));
            }
            i += 1;
        }
        assert(self.entries@.take(self.entries.len() as int) =~= self.entries@);
        found
    }
}

/// `s` without quotes at both ends.
pub fn unquote_of(s: &Vec<char>) -> (r: Vec<char>)
    ensures
        r@ == unquote(s@),
{
    let a = strip_of(s, CharClass::Only('"'));
    strip_of(&a, CharClass::Only('\''))
}

/// A scalar value as written: trimmed and without quotes.
pub fn clean_of(s: &Vec<char>) -> (r: Vec<char>)
    ensures
        r@ == clean(s@),
{
    let t = trim_of(s);
    unquote_of(&t)
}

/// What follows the first `:` of a line, trimmed.
pub fn after_colon_of(line: &Vec<char>) -> (r: Vec<char>)
    ensures
        r@ == after_colon(line@),
{
    match split_once_of(line, ':') {
        Some(p) => trim_of(&p.1),
        None => Vec::new(),
    }
}

/// The inside of a flow list.
pub fn bracket_inner_of(s: &Vec<char>) -> (r: Option<Vec<char>>)
    ensures
        match bracket_inner(s@) {
            Some(t) => r matches Some(x) && x@ == t,
            None => r is None,
        },
{
    if s.len() >= 2 && s[0] == '[' && s[s.len() - 1] == ']' {
        Some(slice(s, 1, s.len() - 1))
    } else {
        None
    }
}

/// Splits an issue file into its frontmatter, trimmed, and its raw body.
pub fn split_frontmatter(content: &Vec<char>) -> (r: Option<(Vec<char>, Vec<char>)>)
    ensures
        match split_frontmatter_text(content@) {
            Some(p) => r matches Some(x) && x.0@ == p.0 && x.1@ == p.1,
            None => r is None,
        },
{
    let open = chars_of("---\n");
    let close = chars_of("\n---");
    if !crate::text::matches_at(content, &open, 0) {
        return None;
    }
    let rest = slice(content, open.len(), content.len());
    assert(rest@ =~= content@.skip(open.len() as int));
    match find_in(&rest, &close, 0) {
        None => None,
        Some(i) => {
            let after = slice(&rest, i + close.len(), rest.len());
            assert(after@ =~= rest@.skip(i + close.len()));
            let body = if after.len() > 0 && after[0] == '\n' {
                assert(after@.subrange(1, after.len() as int) =~= after@.skip(1));
                slice(&after, 1, after.len())
            } else {
                after
            };
            let head = slice(&rest, 0, i);
            assert(head@ =~= rest@.take(i as int));
            Some((trim_of(&head), body))
        },
    }
}

/// Reads the scalar fields of a frontmatter.
pub fn parse_frontmatter_map(fm: &Vec<char>) -> (r: Fields)
    ensures
        r@ == scalars(fm@),
{
    let ls = lines_of(fm);
    let mut entries: Vec<(Vec<char>, Vec<char>)> = Vec::new();
    let mut key: Vec<char> = Vec::new();
    let mut value: Vec<char> = Vec::new();
    let mut in_key = true;
    let mut i: usize = 0;
    assert(rows(ls@).take(0) =~= Seq::<Seq<char>>::empty());
    assert(key@ =~= Seq::<char>::empty());
    assert(value@ =~= Seq::<char>::empty());
    while i < ls.len()
        invariant
            i <= ls.len(),
            scan_lines(rows(ls@).take(i as int)) == (ScanState {
                map: entries_map(entries@),
                key: key@,
                value: value@,
                in_key: in_key,
            }),
        decreases ls.len() - i,
    {
        let ghost next = rows(ls@).take(i + 1);
        assert(next.drop_last() =~= rows(ls@).take(i as int));
        assert(next.last() == ls@[i as int]@);
        let ghost st = scan_lines(rows(ls@).take(i as int));
        let line = &ls[i];
        let t = trim_of(line);
        if t.len() == 0 {
        } else if line.len() > 0 && (char_is_letter(line[0]) || line[0] == '_') {
            if key.len() > 0 {
                let ghost before = entries@;
                let k = copy_of(&key);
                let v = clean_of(&value);
                entries.push((k, v));
                assert(entries@.drop_last() =~= before);
            }
            assert(entries_map(entries@) == flushed(st));
            match split_once_of(line, ':') {
                Some(p) => {
                    key = trim_of(&p.0);
                    value = clean_of(&p.1);
                    in_key = false;
                },
                None => {},
            }
        } else if line.len() > 0 && line[0] == '-' && key.len() > 0 {
        } else if !in_key && value.len() > 0 && line.len() > 0 && line[0] == ' ' {
            value.push(' ');
            push_all(&mut value, &t);
            assert(value@ =~= st.value + seq![' '] + trim(line@));
        }
        i += 1;
    }
    assert(rows(ls@).take(ls.len() as int) =~= rows(ls@));
    if key.len() > 0 {
        let ghost before = entries@;
        let v = clean_of(&value);
        entries.push((key, v));
        assert(entries@.drop_last() =~= before);
    }
    Fields { entries }
}

/// The names of a flow list's parts: each part cleaned, the empty ones left out.
pub open spec fn flow_names(parts: Seq<Seq<char>>) -> Seq<Seq<char>>
    decreases parts.len(),
{
    if parts.len() == 0 {
        Seq::empty()
    } else if clean(parts.last()).len() > 0 {
        flow_names(parts.drop_last()).push(clean(parts.last()))
    } else {
        flow_names(parts.drop_last())
    }
}

/// The names that a line gives as a flow list after its first `:`; none
/// where what follows is not in brackets.
pub open spec fn flow_items(line: Seq<char>) -> Seq<Seq<char>> {
    match bracket_inner(after_colon(line)) {
        Some(inner) => flow_names(split(inner, ',')),
        None => Seq::empty(),
    }
}

/// Labels without a color, one for each name.
pub open spec fn plain_labels(names: Seq<Seq<char>>) -> Seq<LabelModel> {
    names.map_values(|n: Seq<char>| LabelModel { name: n, color: None })
}

/// The name that a block entry `- name: X` gives: the first word after
/// `name:`, without quotes; empty where there is none.
pub open spec fn entry_name(t: Seq<char>) -> Seq<char> {
    match second_piece(t, "name:"@) {
        Some(p) => match first_word(p) {
            Some(w) => unquote(w),
            None => Seq::empty(),
        },
        None => Seq::empty(),
    }
}

/// The color that a line `color: Y` gives: the first word after `color:`,
/// without double quotes.
pub open spec fn entry_color(line: Seq<char>) -> Option<Seq<char>> {
    match second_piece(line, "color:"@) {
        Some(p) => match first_word(p) {
            Some(w) => Some(strip(w, CharClass::Only('"'))),
            None => None,
        },
        None => None,
    }
}

/// The line, after its indentation, opens the field `key`.
pub open spec fn opens(line: Seq<char>, key: Seq<char>) -> bool {
    starts_with(trim_start(line), key)
}

/// The line, after its indentation, is a block entry that names a label.
pub open spec fn is_name_entry(line: Seq<char>) -> bool {
    opens(line, "- name:"@) || opens(line, "-  name:"@)
}

/// The line ends a block of labels that began at the indentation `base`: it
/// is not blank, not indented deeper than `base`, and no list item.
pub open spec fn ends_block(line: Seq<char>, base: nat) -> bool {
    &&& indent_width(line) <= base
    &&& trim_start(line).len() > 0
    &&& !first_is(trim_start(line), '-')
}

/// The labels that the lines from `i` on give, where `in_labels` says whether
/// a block of labels is open, with the indentation `base` of its first line.
pub open spec fn labels_from(ls: Seq<Seq<char>>, i: int, in_labels: bool, base: nat) -> Seq<
    LabelModel,
>
    decreases ls.len() - i,
{
    if i < 0 || i >= ls.len() {
        Seq::empty()
    } else if opens(ls[i], "labels:"@) {
        plain_labels(flow_items(ls[i])) + labels_from(ls, i + 1, true, indent_width(ls[i]))
    } else if !in_labels {
        labels_from(ls, i + 1, false, base)
    } else if ends_block(ls[i], base) {
        labels_from(ls, i + 1, false, base)
    } else if is_name_entry(ls[i]) {
        let name = entry_name(trim_start(ls[i]));
        let has_color = i + 1 < ls.len() && opens(ls[i + 1], "color:"@);
        let color = if has_color {
            entry_color(ls[i + 1])
        } else {
            None
        };
        let here = if name.len() > 0 {
            seq![LabelModel { name: name, color: color }]
        } else {
            Seq::empty()
        };
        here + labels_from(
            ls,
            if has_color {
                i + 2
            } else {
                i + 1
            },
            true,
            base,
        )
    } else {
        labels_from(ls, i + 1, true, base)
    }
}

/// The labels of a frontmatter: a flow list of names on the line of
/// `labels:`, and the entries of the block under it.
pub open spec fn labels_of(fm: Seq<char>) -> Seq<LabelModel> {
    labels_from(lines(fm), 0, false, 0)
}

/// The names of a flow list's parts.
pub fn flow_names_of(parts: &Vec<Vec<char>>) -> (r: Vec<Vec<char>>)
    ensures
        rows(r@) == flow_names(rows(parts@)),
{
    let mut r: Vec<Vec<char>> = Vec::new();
    let mut i: usize = 0;
    assert(rows(parts@).take(0) =~= Seq::<Seq<char>>::empty());
    assert(rows(r@) =~= Seq::<Seq<char>>::empty());
    while i < parts.len()
        invariant
            i <= parts.len(),
            rows(r@) == flow_names(rows(parts@).take(i as int)),
        decreases parts.len() - i,
    {
        let ghost next = rows(parts@).take(i + 1);
        assert(next.drop_last() =~= rows(parts@).take(i as int));
        assert(next.last() == parts@[i as int]@);
        let ghost before = rows(r@);
        let name = clean_of(&parts[i]);
        if name.len() > 0 {
            r.push(name);
            assert(rows(r@) =~= before.push(name@));
        }
        i += 1;
    }
    assert(rows(parts@).take(parts.len() as int) =~= rows(parts@));
    r
}

/// The names that a line gives as a flow list after its first `:`.
pub fn flow_items_of(line: &Vec<char>) -> (r: Vec<Vec<char>>)
    ensures
        rows(r@) == flow_items(line@),
{
    let rest = after_colon_of(line);
    match bracket_inner_of(&rest) {
        Some(inner) => {
            let parts = split_of(&inner, ',');
            flow_names_of(&parts)
        },
        None => {
            let r: Vec<Vec<char>> = Vec::new();
            assert(rows(r@) =~= Seq::<Seq<char>>::empty());
            r
        },
    }
}

/// Whether the line, after its indentation, begins with the text of `key`.
pub fn opens_of(line: &Vec<char>, key: &str) -> (r: bool)
    ensures
        r == opens(line@, key@),
{
    let t = strip_start_of(line, CharClass::Whitespace);
    starts_with_str(&t, key)
}

/// The name that a block entry gives.
pub fn entry_name_of(t: &Vec<char>) -> (r: Vec<char>)
    ensures
        r@ == entry_name(t@),
{
    let pat = chars_of("name:");
    match second_piece_of(t, &pat) {
        Some(p) => match first_word_of(&p) {
            Some(w) => unquote_of(&w),
            None => Vec::new(),
        },
        None => Vec::new(),
    }
}

/// The color that a line `color: Y` gives.
pub fn entry_color_of(line: &Vec<char>) -> (r: Option<Vec<char>>)
    ensures
        match entry_color(line@) {
            Some(c) => r matches Some(x) && x@ == c,
            None => r is None,
        },
{
    let pat = chars_of("color:");
    match second_piece_of(line, &pat) {
        Some(p) => match first_word_of(&p) {
            Some(w) => Some(strip_of(&w, CharClass::Only('"'))),
            None => None,
        },
        None => None,
    }
}

/// Reads the labels of a frontmatter.
pub fn parse_labels(fm: &Vec<char>) -> (r: Vec<Label>)
    ensures
        label_views(r@) == labels_of(fm@),
{
    let ls = lines_of(fm);
    let mut labels: Vec<Label> = Vec::new();
    let mut in_labels = false;
    let mut base: u128 = 0;
    let mut i: usize = 0;
    let ghost all = rows(ls@);
    assert(label_views(labels@) =~= Seq::<LabelModel>::empty());
    assert(label_views(labels@) + labels_from(all, 0, false, 0) =~= labels_from(all, 0, false, 0));
    while i < ls.len()
        invariant
            i <= ls.len(),
            all == rows(ls@),
            all == lines(fm@),
            label_views(labels@) + labels_from(all, i as int, in_labels, base as nat)
                == labels_from(all, 0, false, 0),
        decreases ls.len() - i,
    {
        let line = &ls[i];
        assert(all[i as int] == line@);
        let ghost before = label_views(labels@);
        let ghost tail = labels_from(all, i as int, in_labels, base as nat);
        if opens_of(line, "labels:") {
            let names = flow_items_of(line);
            let mut n: usize = 0;
            assert(rows(names@).take(0) =~= Seq::<Seq<char>>::empty());
            assert(before + plain_labels(rows(names@).take(0)) =~= before);
            while n < names.len()
                invariant
                    n <= names.len(),
                    label_views(labels@) == before + plain_labels(rows(names@).take(n as int)),
                decreases names.len() - n,
            {
                let ghost prev = labels@;
                let ghost seen = rows(names@).take(n as int);
                let ghost more = rows(names@).take(n + 1);
                assert(more =~= seen.push(names@[n as int]@));
                labels.push(Label { name: string_of(&names[n]), color: None });
                assert(label_views(labels@) =~= label_views(prev).push(
                    LabelModel { name: names@[n as int]@, color: None },
                ));
                assert(plain_labels(more) =~= plain_labels(seen).push(
                    LabelModel { name: names@[n as int]@, color: None },
                ));
                assert(label_views(labels@) =~= before + plain_labels(more));
                n += 1;
            }
            assert(rows(names@).take(names.len() as int) =~= rows(names@));
            in_labels = true;
            base = indent_width_of(line);
            assert(label_views(labels@) + labels_from(all, i + 1, true, base as nat) =~= before
                + tail);
            i += 1;
        } else if !in_labels {
            i += 1;
        } else {
            let t = strip_start_of(line, CharClass::Whitespace);
            let w = indent_width_of(line);
            if w <= base && t.len() > 0 && t[0] != '-' {
                in_labels = false;
                i += 1;
            } else if opens_of(line, "- name:") || opens_of(line, "-  name:") {
                let name = entry_name_of(&t);
                let mut color: Option<Vec<char>> = None;
                let mut step: usize = 1;
                if i + 1 < ls.len() {
                    assert(all[i + 1] == ls@[i + 1]@);
                    if opens_of(&ls[i + 1], "color:") {
                        color = entry_color_of(&ls[i + 1]);
                        step = 2;
                    }
                }
                if name.len() > 0 {
                    let ghost prev = labels@;
                    let label = Label {
                        name: string_of(&name),
                        color: match color {
                            Some(c) => Some(string_of(&c)),
                            None => None,
                        },
                    };
                    let ghost model = label@;
                    labels.push(label);
                    assert(label_views(labels@) =~= label_views(prev).push(model));
                    assert(label_views(labels@) + labels_from(all, i + step, true, base as nat)
                        =~= before + tail);
                } else {
                    assert(Seq::<LabelModel>::empty() + labels_from(
                        all,
                        i + step,
                        true,
                        base as nat,
                    ) =~= labels_from(all, i + step, true, base as nat));
                }
                i += step;
            } else {
                i += 1;
            }
        }
    }
    assert(label_views(labels@) + Seq::<LabelModel>::empty() =~= label_views(labels@));
    labels
}

/// The numbers of a flow list's parts: each part trimmed and read as a
/// `u32`, the parts that are none left out.
pub open spec fn flow_numbers(parts: Seq<Seq<char>>) -> Seq<u32>
    decreases parts.len(),
{
    if parts.len() == 0 {
        Seq::empty()
    } else {
        match parse_u32(trim(parts.last())) {
            Some(n) => flow_numbers(parts.drop_last()).push(n),
            None => flow_numbers(parts.drop_last()),
        }
    }
}

/// The numbers of the first line at or after `from` that opens the field
/// `field`; none where that line gives no flow list, or no line opens it.
pub open spec fn numbers_from(ls: Seq<Seq<char>>, field: Seq<char>, from: int) -> Seq<u32>
    decreases ls.len() - from,
{
    if from < 0 || from >= ls.len() {
        Seq::empty()
    } else if opens(ls[from], field + seq![':']) {
        match bracket_inner(after_colon(ls[from])) {
            Some(inner) => flow_numbers(split(inner, ',')),
            None => Seq::empty(),
        }
    } else {
        numbers_from(ls, field, from + 1)
    }
}

/// The numbers of the flow list of the field `field` of a frontmatter.
pub open spec fn numbers_of(fm: Seq<char>, field: Seq<char>) -> Seq<u32> {
    numbers_from(lines(fm), field, 0)
}

/// The numbers of a flow list's parts.
pub fn flow_numbers_of(parts: &Vec<Vec<char>>) -> (r: Vec<u32>)
    ensures
        r@ == flow_numbers(rows(parts@)),
{
    let mut r: Vec<u32> = Vec::new();
    let mut i: usize = 0;
    assert(rows(parts@).take(0) =~= Seq::<Seq<char>>::empty());
    while i < parts.len()
        invariant
            i <= parts.len(),
            r@ == flow_numbers(rows(parts@).take(i as int)),
        decreases parts.len() - i,
    {
        let ghost next = rows(parts@).take(i + 1);
        assert(next.drop_last() =~= rows(parts@).take(i as int));
        assert(next.last() == parts@[i as int]@);
        let t = trim_of(&parts[i]);
        match parse_u32_of(&t) {
            Some(n) => {
                r.push(n);
            },
            None => {},
        }
        i += 1;
    }
    assert(rows(parts@).take(parts.len() as int) =~= rows(parts@));
    r
}

/// Reads the flow list of integers of the field `field` of a frontmatter.
pub fn parse_array_field(fm: &Vec<char>, field: &str) -> (r: Vec<u32>)
    ensures
        r@ == numbers_of(fm@, field@),
{
    let ls = lines_of(fm);
    let mut key = chars_of(field);
    key.push(':');
    assert(key@ =~= field@ + seq![':']);
    let mut i: usize = 0;
    while i < ls.len()
        invariant
            i <= ls.len(),
            rows(ls@) == lines(fm@),
            key@ == field@ + seq![':'],
            numbers_from(rows(ls@), field@, 0) == numbers_from(rows(ls@), field@, i as int),
        decreases ls.len() - i,
    {
        let line = &ls[i];
        assert(rows(ls@)[i as int] == line@);
        let t = strip_start_of(line, CharClass::Whitespace);
        if crate::text::matches_at(&t, &key, 0) {
            let rest = after_colon_of(line);
            return match bracket_inner_of(&rest) {
                Some(inner) => {
                    let parts = split_of(&inner, ',');
                    flow_numbers_of(&parts)
                },
                None => Vec::new(),
            };
        }
        i += 1;
    }
    Vec::new()
}

/// A character that a slug keeps: a letter, a digit, `-` or `_`.
pub open spec fn slug_keeps(c: char) -> bool {
    is_letter_or_digit(c) || c == '-' || c == '_'
}

/// The text with a space in place of each character that a slug does not keep.
pub open spec fn slug_chars(s: Seq<char>) -> Seq<char> {
    s.map_values(|c: char| if slug_keeps(c) { c } else { ' ' })
}

/// The slug of a title: in lowercase, every run of other characters than
/// letters, digits, `-` and `_` turned into one hyphen, none at the ends.
pub open spec fn slug_of(s: Seq<char>) -> Seq<char> {
    join(words(slug_chars(lowercase(s))), seq!['-'])
}

/// The slug of a title.
pub fn slugify_text(s: &Vec<char>) -> (r: Vec<char>)
    ensures
        r@ == slug_of(s@),
{
    let low = to_lower(s);
    let mut kept: Vec<char> = Vec::new();
    let mut i: usize = 0;
    while i < low.len()
        invariant
            i <= low.len(),
            kept@ == slug_chars(low@.take(i as int)),
        decreases low.len() - i,
    {
        let c = low[i];
        let ghost before = low@.take(i as int);
        assert(low@.take(i + 1) =~= before.push(c));
        if char_is_letter_or_digit(c) || c == '-' || c == '_' {
            kept.push(c);
        } else {
            kept.push(' ');
        }
        assert(kept@ =~= slug_chars(low@.take(i + 1)));
        i += 1;
    }
    assert(low@.take(low.len() as int) =~= low@);
    let ws = words_of(&kept);
    let mut sep: Vec<char> = Vec::new();
    sep.push('-');
    assert(sep@ =~= seq!['-']);
    join_of(&ws, &sep)
}

/// Derives a slug from a title: lowercase, with single hyphens in place of
/// every run of characters that are no letters, digits, hyphens or underscores.
pub fn slugify(s: &str) -> (r: String)
    ensures
        r@ == slug_of(s@),
{
    let v = chars_of(s);
    let slug = slugify_text(&v);
    string_of(&slug)
}

/// The value where there is one, else the default.
pub open spec fn or_text(v: Option<Seq<char>>, d: Seq<char>) -> Seq<char> {
    match v {
        Some(s) => s,
        None => d,
    }
}

/// The value where there is one that is not empty.
pub open spec fn non_empty(v: Option<Seq<char>>) -> Option<Seq<char>> {
    match v {
        Some(s) => if s.len() > 0 {
            Some(s)
        } else {
            None
        },
        None => None,
    }
}

/// The assignee that a field value names: none where it is absent, empty or `null`.
pub open spec fn assignee_of(v: Option<Seq<char>>) -> Option<Seq<char>> {
    match non_empty(v) {
        Some(s) => if s == "null"@ {
            None
        } else {
            Some(s)
        },
        None => None,
    }
}

/// The number that a field value denotes, if it denotes one.
pub open spec fn number_of(v: Option<Seq<char>>) -> Option<u32> {
    match v {
        Some(s) => parse_u32(s),
        None => None,
    }
}

/// The issue that a file's text holds, under the id that its name gave.
/// Fields that are missing get their defaults: the title `Untitled`, the
/// slug derived from the title, the type `task`, the status `open`, the
/// priority `medium`; `updated_at` defaults to `created_at`. The body is
/// trimmed. `None` where the text has no frontmatter.
pub open spec fn parsed(content: Seq<char>, id: u32) -> Option<IssueModel> {
    match split_frontmatter_text(content) {
        None => None,
        Some(p) => {
            let fm = p.0;
            let m = scalars(fm);
            let title = or_text(field(m, "title"@), "Untitled"@);
            let created = or_text(field(m, "created_at"@), Seq::empty());
            Some(
                IssueModel {
                    id: id,
                    title: title,
                    slug: or_text(field(m, "slug"@), slug_of(title)),
                    issue_type: or_text(field(m, "type"@), "task"@),
                    status: or_text(field(m, "status"@), "open"@),
                    priority: or_text(field(m, "priority"@), "medium"@),
                    labels: labels_of(fm),
                    assignee: assignee_of(field(m, "assignee"@)),
                    milestone: non_empty(field(m, "milestone"@)),
                    parent: number_of(field(m, "parent"@)),
                    dependencies: numbers_of(fm, "dependencies"@),
                    epic_children: numbers_of(fm, "epic_children"@),
                    points: number_of(field(m, "points"@)),
                    due: non_empty(field(m, "due"@)),
                    created_at: created,
                    updated_at: or_text(field(m, "updated_at"@), created),
                    body: trim(p.1),
                },
            )
        },
    }
}

/// The value as a string where there is one, else the text of `d`.
fn text_or(v: Option<Vec<char>>, d: &str) -> (r: String)
    ensures
        r@ == or_text(
            match v {
                Some(x) => Some(x@),
                None => None,
            },
            d@,
        ),
{
    match v {
        Some(x) => string_of(&x),
        None => {
            let c = chars_of(d);
            string_of(&c)
        },
    }
}

/// The value as a string where there is one that is not empty.
fn string_if_non_empty(v: Option<Vec<char>>) -> (r: Option<String>)
    ensures
        crate::issues::models::opt_text(r) == non_empty(
            match v {
                Some(x) => Some(x@),
                None => None,
            },
        ),
{
    match v {
        Some(x) => if x.len() > 0 {
            Some(string_of(&x))
        } else {
            None
        },
        None => None,
    }
}

/// The number that a field value denotes.
fn number_if_any(v: Option<Vec<char>>) -> (r: Option<u32>)
    ensures
        r == number_of(
            match v {
                Some(x) => Some(x@),
                None => None,
            },
        ),
{
    match v {
        Some(x) => parse_u32_of(&x),
        None => None,
    }
}

/// Parses an issue file (`---`, fields, `---`, empty line, body) into an
/// issue with the given id. Returns `None` where the text has no frontmatter.
pub fn parse_issue(content: &str, id: u32) -> (r: Option<Issue>)
    ensures
        match parsed(content@, id) {
            Some(m) => r matches Some(i) && i@ == m,
            None => r is None,
        },
{
    let text = chars_of(content);
    let (fm, body) = match split_frontmatter(&text) {
        Some(p) => p,
        None => {
            return None;
        },
    };
    let map = parse_frontmatter_map(&fm);
    let title = text_or(map.get("title"), "Untitled");
    let slug = match map.get("slug") {
        Some(s) => string_of(&s),
        None => slugify(title.as_str()),
    };
    let issue_type = text_or(map.get("type"), "task");
    let status = text_or(map.get("status"), "open");
    let priority = text_or(map.get("priority"), "medium");
    let assignee = match string_if_non_empty(map.get("assignee")) {
        Some(a) => {
            let c = chars_of(a.as_str());
            if is_str(&c, "null") {
                None
            } else {
                Some(a)
            }
        },
        None => None,
    };
    let milestone = string_if_non_empty(map.get("milestone"));
    let parent = number_if_any(map.get("parent"));
    let created_at = text_or(map.get("created_at"), "");
    proof {
        reveal_strlit("");
        assert(""@ =~= Seq::<char>::empty());
    }
    let updated_at = match map.get("updated_at") {
        Some(u) => string_of(&u),
        None => {
            let c = chars_of(created_at.as_str());
            string_of(&c)
        },
    };
    let due = string_if_non_empty(map.get("due"));
    let points = number_if_any(map.get("points"));
    let labels = parse_labels(&fm);
    let dependencies = parse_array_field(&fm, "dependencies");
    let epic_children = parse_array_field(&fm, "epic_children");
    let trimmed = trim_of(&body);
    Some(
        Issue {
            id,
            title,
            slug,
            issue_type,
            status,
            priority,
            labels,
            assignee,
            milestone,
            parent,
            dependencies,
            epic_children,
            points,
            due,
            created_at,
            updated_at,
            body: string_of(&trimmed),
        },
    )
}

/// The text with a backslash before every backslash and every double quote.
pub open spec fn escaped(s: Seq<char>) -> Seq<char>
    decreases s.len(),
{
    if s.len() == 0 {
        Seq::empty()
    } else if s.last() == '\\' {
        escaped(s.drop_last()) + seq!['\\', '\\']
    } else if s.last() == '"' {
        escaped(s.drop_last()) + seq!['\\', '"']
    } else {
        escaped(s.drop_last()).push(s.last())
    }
}

/// A field line with a bare value: `key: value`.
pub open spec fn plain_line(key: Seq<char>, value: Seq<char>) -> Seq<char> {
    key + ": "@ + value
}

/// A field line with a quoted value: `key: "value"`.
pub open spec fn quoted_line(key: Seq<char>, value: Seq<char>) -> Seq<char> {
    key + ": \""@ + value + "\""@
}

/// The lines of one label in the block list: its name, escaped, and its
/// color where it has one.
pub open spec fn label_entry(l: LabelModel) -> Seq<Seq<char>> {
    let first = "  - name: \""@ + escaped(l.name) + "\""@;
    match l.color {
        Some(c) => seq![first, "    color: \""@ + c + "\""@],
        None => seq![first],
    }
}

/// The lines of the labels in the block list.
pub open spec fn label_entries(ls: Seq<LabelModel>) -> Seq<Seq<char>>
    decreases ls.len(),
{
    if ls.len() == 0 {
        Seq::empty()
    } else {
        label_entries(ls.drop_last()) + label_entry(ls.last())
    }
}

/// The lines of the field `labels`: an empty flow list, or the block list.
pub open spec fn label_lines(ls: Seq<LabelModel>) -> Seq<Seq<char>> {
    if ls.len() == 0 {
        seq!["labels: []"@]
    } else {
        seq!["labels:"@] + label_entries(ls)
    }
}

/// The decimal forms of the ids.
pub open spec fn decimals(v: Seq<u32>) -> Seq<Seq<char>> {
    v.map_values(|n: u32| decimal(n as nat))
}

/// A flow list of ids: `[1, 2, 3]`.
pub open spec fn id_list(v: Seq<u32>) -> Seq<char> {
    seq!['['] + join(decimals(v), ", "@) + seq![']']
}

/// The first six lines of a frontmatter: id, title, slug, type, status, priority.
pub open spec fn head_lines(i: IssueModel) -> Seq<Seq<char>> {
    seq![
        plain_line("id"@, decimal(i.id as nat)),
        quoted_line("title"@, escaped(i.title)),
        quoted_line("slug"@, i.slug),
        plain_line("type"@, i.issue_type),
        plain_line("status"@, i.status),
        plain_line("priority"@, i.priority),
    ]
}

/// The line of the assignee, which is always written.
pub open spec fn assignee_line(a: Option<Seq<char>>) -> Seq<char> {
    match a {
        Some(x) => quoted_line("assignee"@, escaped(x)),
        None => "assignee: null"@,
    }
}

/// The line of the parent, which is always written.
pub open spec fn parent_line(p: Option<u32>) -> Seq<char> {
    match p {
        Some(x) => plain_line("parent"@, decimal(x as nat)),
        None => "parent: null"@,
    }
}

/// The line, where `present` holds; no line otherwise.
pub open spec fn line_if(present: bool, line: Seq<char>) -> Seq<Seq<char>> {
    if present {
        seq![line]
    } else {
        Seq::empty()
    }
}

/// The lines of a frontmatter after the labels: assignee, milestone if
/// present, parent, dependencies, epic_children if not empty, points and due
/// if present, created_at, updated_at.
pub open spec fn tail_lines(i: IssueModel) -> Seq<Seq<char>> {
    seq![assignee_line(i.assignee)] + line_if(
        i.milestone is Some,
        quoted_line("milestone"@, escaped(i.milestone->0)),
    ) + seq![parent_line(i.parent), plain_line("dependencies"@, id_list(i.dependencies))]
        + line_if(i.epic_children.len() > 0, plain_line("epic_children"@, id_list(i.epic_children)))
        + line_if(i.points is Some, plain_line("points"@, decimal(i.points->0 as nat))) + line_if(
        i.due is Some,
        quoted_line("due"@, i.due->0),
    ) + seq![
        quoted_line("created_at"@, i.created_at),
        quoted_line("updated_at"@, i.updated_at),
    ]
}

/// The lines of a frontmatter, in their fixed order.
pub open spec fn front_lines(i: IssueModel) -> Seq<Seq<char>> {
    head_lines(i) + label_lines(i.labels) + tail_lines(i)
}

/// The lines, each with a newline after it.
pub open spec fn unlines(ls: Seq<Seq<char>>) -> Seq<char>
    decreases ls.len(),
{
    if ls.len() == 0 {
        Seq::empty()
    } else {
        unlines(ls.drop_last()) + ls.last() + seq!['\n']
    }
}

/// The newline that closes a body which is not empty and does not end in one.
pub open spec fn closing_newline(body: Seq<char>) -> Seq<char> {
    if body.len() > 0 && body.last() != '\n' {
        seq!['\n']
    } else {
        Seq::empty()
    }
}

/// The text form of an issue.
pub open spec fn serialized(i: IssueModel) -> Seq<char> {
    "---\n"@ + unlines(front_lines(i)) + "---\n\n"@ + i.body + closing_newline(i.body)
}

/// Escapes backslashes and double quotes for a quoted value.
pub fn escape_yaml_str(s: &Vec<char>) -> (r: Vec<char>)
    ensures
        r@ == escaped(s@),
{
    let mut r: Vec<char> = Vec::new();
    let mut i: usize = 0;
    assert(s@.take(0) =~= Seq::<char>::empty());
    while i < s.len()
        invariant
            i <= s.len(),
            r@ == escaped(s@.take(i as int)),
        decreases s.len() - i,
    {
        let c = s[i];
        let ghost before = r@;
        let ghost next = s@.take(i + 1);
        assert(next.drop_last() =~= s@.take(i as int));
        assert(next.last() == c);
        if c == '\\' {
            r.push('\\');
            r.push('\\');
            assert(r@ =~= before + seq!['\\', '\\']);
        } else if c == '"' {
            r.push('\\');
            r.push('"');
            assert(r@ =~= before + seq!['\\', '"']);
        } else {
            r.push(c);
        }
        i += 1;
    }
    assert(s@.take(s.len() as int) =~= s@);
    r
}

/// A field line with a bare value.
fn plain_line_of(key: &str, value: &Vec<char>) -> (r: Vec<char>)
    ensures
        r@ == plain_line(key@, value@),
{
    let mut r = chars_of(key);
    push_str(&mut r, ": ");
    push_all(&mut r, value);
    r
}

/// A field line with a quoted value.
fn quoted_line_of(key: &str, value: &Vec<char>) -> (r: Vec<char>)
    ensures
        r@ == quoted_line(key@, value@),
{
    let mut r = chars_of(key);
    push_str(&mut r, ": \"");
    push_all(&mut r, value);
    push_str(&mut r, "\"");
    r
}

/// A flow list of ids.
fn id_list_of(v: &Vec<u32>) -> (r: Vec<char>)
    ensures
        r@ == id_list(v@),
{
    let mut body: Vec<char> = Vec::new();
    let mut i: usize = 0;
    assert(decimals(v@.take(0)) =~= Seq::<Seq<char>>::empty());
    while i < v.len()
        invariant
            i <= v.len(),
            body@ == join(decimals(v@.take(i as int)), ", "@),
        decreases v.len() - i,
    {
        let ghost done = decimals(v@.take(i as int));
        let ghost next = decimals(v@.take(i + 1));
        assert(next.drop_last() =~= done);
        assert(next.last() == decimal(v@[i as int] as nat));
        if i > 0 {
            push_str(&mut body, ", ");
        } else {
            assert(body@ =~= Seq::<char>::empty());
        }
        let d = decimal_of(v[i] as u64);
        push_all(&mut body, &d);
        assert(body@ =~= join(next, ", "@));
        i += 1;
    }
    assert(v@.take(v.len() as int) =~= v@);
    let mut r: Vec<char> = Vec::new();
    r.push('[');
    push_all(&mut r, &body);
    r.push(']');
    assert(r@ =~= id_list(v@));
    r
}

/// The lines of the field `labels`.
fn label_lines_of(labels: &Vec<Label>) -> (r: Vec<Vec<char>>)
    ensures
        rows(r@) == label_lines(label_views(labels@)),
{
    let mut r: Vec<Vec<char>> = Vec::new();
    if labels.len() == 0 {
        r.push(chars_of("labels: []"));
        assert(rows(r@) =~= seq!["labels: []"@]);
        return r;
    }
    r.push(chars_of("labels:"));
    let mut i: usize = 0;
    let ghost all = label_views(labels@);
    assert(all.take(0) =~= Seq::<LabelModel>::empty());
    assert(rows(r@) =~= seq!["labels:"@] + label_entries(all.take(0)));
    while i < labels.len()
        invariant
            i <= labels.len(),
            all == label_views(labels@),
            rows(r@) == seq!["labels:"@] + label_entries(all.take(i as int)),
        decreases labels.len() - i,
    {
        let ghost before = rows(r@);
        let ghost next = all.take(i + 1);
        assert(next.drop_last() =~= all.take(i as int));
        assert(next.last() == labels@[i as int]@);
        let l = &labels[i];
        let name = chars_of(l.name.as_str());
        let esc = escape_yaml_str(&name);
        let mut first = chars_of("  - name: \"");
        push_all(&mut first, &esc);
        push_str(&mut first, "\"");
        r.push(first);
        match &l.color {
            Some(c) => {
                let cs = chars_of(c.as_str());
                let mut second = chars_of("    color: \"");
                push_all(&mut second, &cs);
                push_str(&mut second, "\"");
                r.push(second);
                assert(rows(r@) =~= before + label_entry(l@));
            },
            None => {
                assert(rows(r@) =~= before + label_entry(l@));
            },
        }
        assert(rows(r@) =~= seq!["labels:"@] + label_entries(next));
        i += 1;
    }
    assert(all.take(labels.len() as int) =~= all);
    r
}

/// The lines of a frontmatter before the labels.
fn head_lines_of(issue: &Issue) -> (r: Vec<Vec<char>>)
    ensures
        rows(r@) == head_lines(issue@),
{
    let mut r: Vec<Vec<char>> = Vec::new();
    r.push(plain_line_of("id", &decimal_of(issue.id as u64)));
    let title = chars_of(issue.title.as_str());
    r.push(quoted_line_of("title", &escape_yaml_str(&title)));
    r.push(quoted_line_of("slug", &chars_of(issue.slug.as_str())));
    r.push(plain_line_of("type", &chars_of(issue.issue_type.as_str())));
    r.push(plain_line_of("status", &chars_of(issue.status.as_str())));
    r.push(plain_line_of("priority", &chars_of(issue.priority.as_str())));
    assert(rows(r@) =~= head_lines(issue@));
    r
}

/// The lines of a frontmatter after the labels.
fn tail_lines_of(issue: &Issue) -> (r: Vec<Vec<char>>)
    ensures
        rows(r@) == tail_lines(issue@),
{
    let mut r: Vec<Vec<char>> = Vec::new();
    match &issue.assignee {
        Some(a) => {
            let c = chars_of(a.as_str());
            r.push(quoted_line_of("assignee", &escape_yaml_str(&c)));
        },
        None => {
            r.push(chars_of("assignee: null"));
        },
    }
    assert(rows(r@) =~= seq![assignee_line(issue@.assignee)]);
    let ghost s1 = rows(r@);
    match &issue.milestone {
        Some(m) => {
            let c = chars_of(m.as_str());
            r.push(quoted_line_of("milestone", &escape_yaml_str(&c)));
        },
        None => {},
    }
    assert(rows(r@) =~= s1 + line_if(
        issue@.milestone is Some,
        quoted_line("milestone"@, escaped(issue@.milestone->0)),
    ));
    let ghost s2 = rows(r@);
    match issue.parent {
        Some(p) => {
            r.push(plain_line_of("parent", &decimal_of(p as u64)));
        },
        None => {
            r.push(chars_of("parent: null"));
        },
    }
    r.push(plain_line_of("dependencies", &id_list_of(&issue.dependencies)));
    assert(rows(r@) =~= s2 + seq![
        parent_line(issue@.parent),
        plain_line("dependencies"@, id_list(issue@.dependencies)),
    ]);
    let ghost s3 = rows(r@);
    if issue.epic_children.len() > 0 {
        r.push(plain_line_of("epic_children", &id_list_of(&issue.epic_children)));
    }
    assert(rows(r@) =~= s3 + line_if(
        issue@.epic_children.len() > 0,
        plain_line("epic_children"@, id_list(issue@.epic_children)),
    ));
    let ghost s4 = rows(r@);
    match issue.points {
        Some(p) => {
            r.push(plain_line_of("points", &decimal_of(p as u64)));
        },
        None => {},
    }
    assert(rows(r@) =~= s4 + line_if(
        issue@.points is Some,
        plain_line("points"@, decimal(issue@.points->0 as nat)),
    ));
    let ghost s5 = rows(r@);
    match &issue.due {
        Some(d) => {
            r.push(quoted_line_of("due", &chars_of(d.as_str())));
        },
        None => {},
    }
    assert(rows(r@) =~= s5 + line_if(issue@.due is Some, quoted_line("due"@, issue@.due->0)));
    let ghost s6 = rows(r@);
    r.push(quoted_line_of("created_at", &chars_of(issue.created_at.as_str())));
    r.push(quoted_line_of("updated_at", &chars_of(issue.updated_at.as_str())));
    assert(rows(r@) =~= s6 + seq![
        quoted_line("created_at"@, issue@.created_at),
        quoted_line("updated_at"@, issue@.updated_at),
    ]);
    r
}

/// Appends each line, with a newline after it.
fn push_lines(out: &mut Vec<char>, ls: &Vec<Vec<char>>)
    ensures
        final(out)@ == old(out)@ + unlines(rows(ls@)),
{
    let mut i: usize = 0;
    assert(rows(ls@).take(0) =~= Seq::<Seq<char>>::empty());
    assert(out@ =~= old(out)@ + unlines(rows(ls@).take(0)));
    while i < ls.len()
        invariant
            i <= ls.len(),
            out@ == old(out)@ + unlines(rows(ls@).take(i as int)),
        decreases ls.len() - i,
    {
        let ghost next = rows(ls@).take(i + 1);
        assert(next.drop_last() =~= rows(ls@).take(i as int));
        assert(next.last() == ls@[i as int]@);
        push_all(out, &ls[i]);
        out.push('\n');
        assert(out@ =~= old(out)@ + unlines(next));
        i += 1;
    }
    assert(rows(ls@).take(ls.len() as int) =~= rows(ls@));
}

/// The lines of several parts laid end to end are the lines of each part in turn.
pub proof fn lemma_unlines_concat(a: Seq<Seq<char>>, b: Seq<Seq<char>>)
    ensures
        unlines(a + b) == unlines(a) + unlines(b),
    decreases b.len(),
{
    if b.len() == 0 {
        assert(a + b =~= a);
        assert(unlines(a) + unlines(b) =~= unlines(a));
    } else {
        lemma_unlines_concat(a, b.drop_last());
        assert((a + b).drop_last() =~= a + b.drop_last());
        assert((a + b).last() == b.last());
        assert(unlines(a + b) =~= unlines(a) + unlines(b));
    }
}

/// Serializes an issue to its text form: the frontmatter in its fixed order
/// of fields, then the body.
pub fn serialize_issue(issue: &Issue) -> (r: String)
    ensures
        r@ == serialized(issue@),
{
    let head = head_lines_of(issue);
    let labels = label_lines_of(&issue.labels);
    let tail = tail_lines_of(issue);
    let mut out = chars_of("---\n");
    push_lines(&mut out, &head);
    push_lines(&mut out, &labels);
    push_lines(&mut out, &tail);
    proof {
        let m = issue@;
        lemma_unlines_concat(head_lines(m), label_lines(m.labels));
        lemma_unlines_concat(head_lines(m) + label_lines(m.labels), tail_lines(m));
        assert(out@ =~= "---\n"@ + unlines(front_lines(m)));
    }
    push_str(&mut out, "---\n\n");
    let body = chars_of(issue.body.as_str());
    push_all(&mut out, &body);
    if body.len() > 0 && body[body.len() - 1] != '\n' {
        out.push('\n');
    }
    assert(out@ =~= serialized(issue@));
    string_of(&out)
}

} // verus!
