//! The round trip of the frontmatter codec: reading what was just written
//! gives the record back.

use vstd::prelude::*;
use crate::issues::frontmatter::{
    assignee_line, assignee_of, bracket_inner, clean, closing_newline, decimals, ends_block,
    entry_color, entry_name, escaped, field, first_is, flow_items, flow_names, flow_numbers,
    flushed, front_lines, head_lines, id_list, is_name_entry, label_entries, label_entry,
    label_lines, labels_from, labels_of, line_if, non_empty, number_of, numbers_from,
    numbers_of, opens, parent_line, parsed, plain_labels, plain_line, quoted_line, scalars,
    scan_line, scan_lines, ScanState, serialized, split_frontmatter_text, starts_field,
    tail_lines, unlines,
};
use crate::issues::models::{IssueModel, LabelModel};
use crate::number::{
    decimal, digit_value, digits_value, lemma_decimal_value, lemma_parse_decimal, parse_u32,
};
use crate::text::{
    byte_len, contains, find, indent_width, is_ascii_letter, is_whitespace, join, lemma_find_from,
    lemma_rspan, lemma_span_is, lines, occurs_at, second_piece, split, trim, trim_start,
    CharClass,
};
use crate::text_laws::{
    clean_lines, clear_of, lemma_find_is, lemma_first_word,
    lemma_index_of_absent, lemma_join_front, lemma_lines_of_join, lemma_split_once_at,
    lemma_strip_id, lemma_strip_wrapped, lemma_trim_id, no_char, no_whitespace,
};

verus! {

/// A line of a frontmatter, by its kind: a field `key:` with what follows
/// the colon, the name of a label in the block list, or its color.
pub enum Line {
    Field { key: Seq<char>, raw: Seq<char> },
    Name(Seq<char>),
    Color(Seq<char>),
}

/// The text of a line.
pub open spec fn render(l: Line) -> Seq<char> {
    match l {
        Line::Field { key, raw } => key + seq![':'] + raw,
        Line::Name(n) => "  - name: \""@ + n + "\""@,
        Line::Color(c) => "    color: \""@ + c + "\""@,
    }
}

/// The texts of the lines.
pub open spec fn render_all(ls: Seq<Line>) -> Seq<Seq<char>> {
    ls.map_values(|l: Line| render(l))
}

/// A key: letters of the ASCII alphabet and underscores, at least one.
pub open spec fn is_key(k: Seq<char>) -> bool {
    k.len() > 0 && forall|i: int| 0 <= i < k.len() ==> is_ascii_letter(#[trigger] k[i]) || k[i] == '_'
}

/// A value that is written without quotes and read back as it is: on one
/// line, with no whitespace and no quote at either end.
pub open spec fn is_bare(v: Seq<char>) -> bool {
    &&& no_char(v, '\n')
    &&& clear_of(v, CharClass::Whitespace)
    &&& clear_of(v, CharClass::Only('"'))
    &&& clear_of(v, CharClass::Only('\''))
}

/// A value that is written in quotes and read back as it is: a bare value
/// without double quotes and backslashes.
pub open spec fn is_plain(x: Seq<char>) -> bool {
    is_bare(x) && no_char(x, '"') && no_char(x, '\\')
}

/// The name of a label that is read back as it is: one word without double
/// quotes and backslashes, with no single quote at either end, that does not
/// hold the text `name:`.
pub open spec fn is_token(n: Seq<char>) -> bool {
    &&& n.len() > 0
    &&& no_whitespace(n)
    &&& no_char(n, '"')
    &&& no_char(n, '\\')
    &&& !contains(n, "name:"@)
    &&& clear_of(n, CharClass::Only('\''))
}

/// The color of a label that is read back as it is: without whitespace,
/// with no double quote at either end, and not holding the text `color:`.
pub open spec fn is_color(c: Seq<char>) -> bool {
    no_whitespace(c) && clear_of(c, CharClass::Only('"')) && !contains(c, "color:"@)
}

/// What follows the colon of a field with a bare value.
pub open spec fn bare_raw(v: Seq<char>) -> Seq<char> {
    seq![' '] + v
}

/// What follows the colon of a field with a quoted value.
pub open spec fn quoted_raw(x: Seq<char>) -> Seq<char> {
    seq![' ', '"'] + x + seq!['"']
}

/// What follows the colon of a field holds no newline and ends in no
/// carriage return.
pub open spec fn raw_ok(r: Seq<char>) -> bool {
    no_char(r, '\n') && (r.len() == 0 || r.last() != '\r')
}

/// The line is one that the writer makes from values that are read back as
/// they are.
pub open spec fn line_ok(l: Line) -> bool {
    match l {
        Line::Field { key, raw } => is_key(key) && raw_ok(raw),
        Line::Name(n) => is_token(n),
        Line::Color(c) => is_color(c),
    }
}

proof fn lemma_literals()
    ensures
        "  - name: \""@ == seq![' ', ' ', '-', ' ', 'n', 'a', 'm', 'e', ':', ' ', '"'],
        "    color: \""@ == seq![' ', ' ', ' ', ' ', 'c', 'o', 'l', 'o', 'r', ':', ' ', '"'],
        "\""@ == seq!['"'],
        "name:"@ == seq!['n', 'a', 'm', 'e', ':'],
        "color:"@ == seq!['c', 'o', 'l', 'o', 'r', ':'],
        "- name:"@ == seq!['-', ' ', 'n', 'a', 'm', 'e', ':'],
        "-  name:"@ == seq!['-', ' ', ' ', 'n', 'a', 'm', 'e', ':'],
        "labels:"@ == seq!['l', 'a', 'b', 'e', 'l', 's', ':'],
{
    reveal_strlit("  - name: \"");
    reveal_strlit("    color: \"");
    reveal_strlit("\"");
    reveal_strlit("name:");
    reveal_strlit("color:");
    reveal_strlit("- name:");
    reveal_strlit("-  name:");
    reveal_strlit("labels:");
    assert("  - name: \""@ =~= seq![' ', ' ', '-', ' ', 'n', 'a', 'm', 'e', ':', ' ', '"']);
    assert("    color: \""@ =~= seq![' ', ' ', ' ', ' ', 'c', 'o', 'l', 'o', 'r', ':', ' ', '"']);
    assert("\""@ =~= seq!['"']);
    assert("name:"@ =~= seq!['n', 'a', 'm', 'e', ':']);
    assert("color:"@ =~= seq!['c', 'o', 'l', 'o', 'r', ':']);
    assert("- name:"@ =~= seq!['-', ' ', 'n', 'a', 'm', 'e', ':']);
    assert("-  name:"@ =~= seq!['-', ' ', ' ', 'n', 'a', 'm', 'e', ':']);
    assert("labels:"@ =~= seq!['l', 'a', 'b', 'e', 'l', 's', ':']);
}

/// A bare value is read back as it is, once and again.
pub proof fn lemma_clean_bare(v: Seq<char>)
    requires
        is_bare(v),
    ensures
        clean(bare_raw(v)) == v,
        clean(v) == v,
{
    lemma_strip_wrapped(seq![' '], v, Seq::empty(), CharClass::Whitespace);
    assert(seq![' '] + v + Seq::<char>::empty() =~= bare_raw(v));
    lemma_strip_id(v, CharClass::Whitespace);
    lemma_strip_id(v, CharClass::Only('"'));
    lemma_strip_id(v, CharClass::Only('\''));
}

/// A bare value in quotes is read back as it is, once and again.
pub proof fn lemma_clean_quoted(x: Seq<char>)
    requires
        is_bare(x),
    ensures
        clean(quoted_raw(x)) == x,
        clean(x) == x,
{
    let w = seq!['"'] + x + seq!['"'];
    assert(w[0] == '"');
    assert(w.last() == '"');
    lemma_strip_wrapped(seq![' '], w, Seq::empty(), CharClass::Whitespace);
    assert(seq![' '] + w + Seq::<char>::empty() =~= quoted_raw(x));
    lemma_strip_wrapped(seq!['"'], x, seq!['"'], CharClass::Only('"'));
    lemma_strip_id(x, CharClass::Only('\''));
    lemma_clean_bare(x);
}

/// What every line of the writer has: it is not empty, begins with no `-`,
/// holds no newline and ends in no carriage return.
pub proof fn lemma_line_shape(l: Line)
    requires
        line_ok(l),
    ensures
        render(l).len() > 0,
        render(l)[0] != '-',
        no_char(render(l), '\n'),
        render(l).last() != '\r',
        l is Field ==> !is_whitespace(render(l)[0]),
        l !is Field ==> render(l).last() == '"',
{
    lemma_literals();
    let s = render(l);
    match l {
        Line::Field { key, raw } => {
            assert(s[0] == key[0]);
            assert forall|i: int| 0 <= i < s.len() implies s[i] != '\n' by {
                if i < key.len() {
                    assert(s[i] == key[i]);
                } else if i > key.len() {
                    assert(s[i] == raw[i - key.len() - 1]);
                }
            }
            if raw.len() > 0 {
                assert(s.last() == raw.last());
            }
        },
        Line::Name(n) => {
            assert(s[0] == ' ');
            assert forall|i: int| 0 <= i < s.len() implies s[i] != '\n' by {
                if 11 <= i < 11 + n.len() {
                    assert(s[i] == n[i - 11]);
                }
            }
        },
        Line::Color(c) => {
            assert(s[0] == ' ');
            assert forall|i: int| 0 <= i < s.len() implies s[i] != '\n' by {
                if 12 <= i < 12 + c.len() {
                    assert(s[i] == c[i - 12]);
                }
            }
        },
    }
}

/// The scanner takes a field line as a field: it stores the field held so
/// far and holds the new key with its value.
pub proof fn lemma_field_scan(key: Seq<char>, raw: Seq<char>, st: ScanState)
    requires
        is_key(key),
    ensures
        scan_line(st, render(Line::Field { key, raw })) == (ScanState {
            map: flushed(st),
            key: key,
            value: clean(raw),
            in_key: false,
        }),
{
    let line = key + seq![':'] + raw;
    assert(line[0] == key[0]);
    lemma_span_is(line, CharClass::Whitespace, 0);
    assert(line.skip(0) =~= line);
    lemma_rspan(line, CharClass::Whitespace);
    assert(trim(line).len() > 0);
    assert(starts_field(line));
    lemma_split_once_at(key, ':', raw);
    assert(key.last() == key[key.len() - 1]);
    lemma_strip_id(key, CharClass::Whitespace);
}

/// A field line opens the field of its own key, and no other.
pub proof fn lemma_field_opens(key: Seq<char>, raw: Seq<char>, other: Seq<char>)
    requires
        is_key(key),
        is_key(other),
    ensures
        opens(render(Line::Field { key, raw }), other + seq![':']) == (key == other),
        trim_start(render(Line::Field { key, raw })) == render(Line::Field { key, raw }),
        indent_width(render(Line::Field { key, raw })) == 0,
        ends_block(render(Line::Field { key, raw }), 0),
{
    let line = key + seq![':'] + raw;
    let p = other + seq![':'];
    assert(line[0] == key[0]);
    lemma_span_is(line, CharClass::Whitespace, 0);
    assert(line.skip(0) =~= line);
    assert(line.take(0) =~= Seq::<char>::empty());
    if key == other {
        assert(line.subrange(0, p.len() as int) =~= p);
    }
    if occurs_at(line, p, 0) {
        let w = line.subrange(0, p.len() as int);
        if other.len() < key.len() {
            assert(w[other.len() as int] == line[other.len() as int]);
            assert(line[other.len() as int] == key[other.len() as int]);
            assert(p[other.len() as int] == ':');
        } else if other.len() > key.len() {
            assert(w[key.len() as int] == line[key.len() as int]);
            assert(p[key.len() as int] == other[key.len() as int]);
        } else {
            assert forall|j: int| 0 <= j < key.len() implies key[j] == other[j] by {
                assert(w[j] == line[j]);
                assert(line[j] == key[j]);
                assert(p[j] == other[j]);
            }
            assert(key =~= other);
        }
    }
}

/// The scanner passes over the line of a label while the field that it
/// holds has an empty value.
pub proof fn lemma_entry_scan(l: Line, st: ScanState)
    requires
        l !is Field,
        st.value.len() == 0,
    ensures
        scan_line(st, render(l)) == st,
{
    lemma_literals();
    let s = render(l);
    assert(s[0] == ' ');
}

/// A pattern that does not occur in a text, begins with neither a space nor
/// a double quote and does not end with one, does not occur in the text put
/// in quotes after a space.
proof fn lemma_no_inner_pattern(x: Seq<char>, pat: Seq<char>)
    requires
        !contains(x, pat),
        pat.len() > 0,
        pat[0] != ' ',
        pat[0] != '"',
        pat.last() != '"',
    ensures
        find(seq![' ', '"'] + x + seq!['"'], pat) is None,
{
    let rest = seq![' ', '"'] + x + seq!['"'];
    lemma_find_from(rest, pat, 0);
    lemma_find_from(x, pat, 0);
    if find(rest, pat) is Some {
        let q = find(rest, pat)->0;
        let w = rest.subrange(q, q + pat.len());
        assert(w[0] == rest[q]);
        assert(w[pat.len() - 1] == rest[q + pat.len() - 1]);
        assert(q >= 2);
        assert(q + pat.len() - 1 <= rest.len() - 2);
        assert(x.subrange(q - 2, q - 2 + pat.len()) =~= w);
        assert(occurs_at(x, pat, q - 2));
    }
}

/// The line of a label's name is an entry of the block that gives the name
/// back; it opens no field and does not end the block.
pub proof fn lemma_name_line(n: Seq<char>)
    requires
        is_token(n),
    ensures
        is_name_entry(render(Line::Name(n))),
        entry_name(trim_start(render(Line::Name(n)))) == n,
        !ends_block(render(Line::Name(n)), 0),
        first_is(trim_start(render(Line::Name(n))), '-'),
{
    lemma_literals();
    let line = render(Line::Name(n));
    let t = seq!['-', ' ', 'n', 'a', 'm', 'e', ':', ' ', '"'] + n + seq!['"'];
    lemma_span_is(line, CharClass::Whitespace, 2);
    assert(line.skip(2) =~= t);
    assert(trim_start(line) == t);
    assert(t.subrange(0, 7) =~= "- name:"@);
    let two = line.take(2);
    assert(two.len() == 2);
    assert(byte_len(two) >= 1);
    let pat = seq!['n', 'a', 'm', 'e', ':'];
    assert(t.subrange(2, 7) =~= pat);
    assert(t.subrange(0, 5)[0] == t[0]);
    assert(t.subrange(1, 6)[0] == t[1]);
    lemma_find_is(t, pat, 2);
    let rest = t.skip(7);
    let w = seq!['"'] + n + seq!['"'];
    assert(rest =~= seq![' '] + w);
    lemma_no_inner_pattern(n, pat);
    assert(rest =~= seq![' ', '"'] + n + seq!['"']);
    assert(second_piece(t, pat) == Some(rest));
    assert forall|i: int| 0 <= i < w.len() implies !is_whitespace(#[trigger] w[i]) by {
        if 1 <= i < 1 + n.len() {
            assert(w[i] == n[i - 1]);
        }
    }
    lemma_first_word(seq![' '], w);
    assert(n.last() == n[n.len() - 1]);
    lemma_strip_wrapped(seq!['"'], n, seq!['"'], CharClass::Only('"'));
    lemma_strip_id(n, CharClass::Only('\''));
}

/// The line of a label's color opens the field `color` and gives the color back.
pub proof fn lemma_color_line(c: Seq<char>)
    requires
        is_color(c),
    ensures
        opens(render(Line::Color(c)), "color:"@),
        entry_color(render(Line::Color(c))) == Some(c),
        !ends_block(render(Line::Color(c)), 0),
        !is_name_entry(render(Line::Color(c))),
        first_is(trim_start(render(Line::Color(c))), 'c'),
{
    lemma_literals();
    let line = render(Line::Color(c));
    let t = seq!['c', 'o', 'l', 'o', 'r', ':', ' ', '"'] + c + seq!['"'];
    lemma_span_is(line, CharClass::Whitespace, 4);
    assert(line.skip(4) =~= t);
    assert(trim_start(line) == t);
    let pat = seq!['c', 'o', 'l', 'o', 'r', ':'];
    assert(t.subrange(0, 6) =~= pat);
    assert(t.subrange(0, 7)[0] == t[0]);
    assert(t.subrange(0, 8)[0] == t[0]);
    let four = line.take(4);
    assert(four.len() == 4);
    assert(byte_len(four) >= 1);
    assert(line.subrange(4, 10) =~= pat);
    assert forall|q: int| 0 <= q < 4 implies !occurs_at(line, pat, q) by {
        assert(line.subrange(q, q + 6)[0] == line[q]);
    }
    lemma_find_is(line, pat, 4);
    let rest = line.skip(10);
    let w = seq!['"'] + c + seq!['"'];
    assert(rest =~= seq![' '] + w);
    lemma_no_inner_pattern(c, pat);
    assert(rest =~= seq![' ', '"'] + c + seq!['"']);
    assert(second_piece(line, pat) == Some(rest));
    assert forall|i: int| 0 <= i < w.len() implies !is_whitespace(#[trigger] w[i]) by {
        if 1 <= i < 1 + c.len() {
            assert(w[i] == c[i - 1]);
        }
    }
    lemma_first_word(seq![' '], w);
    if c.len() > 0 {
        assert(c.last() == c[c.len() - 1]);
    }
    lemma_strip_wrapped(seq!['"'], c, seq!['"'], CharClass::Only('"'));
}

/// The line of a label opens no field whose key begins with another letter
/// than `c`.
pub proof fn lemma_entry_opens(l: Line, other: Seq<char>)
    requires
        line_ok(l),
        l !is Field,
        is_key(other),
        other[0] != 'c',
    ensures
        !opens(render(l), other + seq![':']),
{
    let p = other + seq![':'];
    let t = trim_start(render(l));
    match l {
        Line::Name(n) => {
            lemma_name_line(n);
        },
        Line::Color(c) => {
            lemma_color_line(c);
        },
        Line::Field { .. } => {},
    }
    if occurs_at(t, p, 0) {
        assert(t.subrange(0, p.len() as int)[0] == t[0]);
        assert(p[0] == other[0]);
    }
}

/// The state of the scanner after the given lines, said by their kinds: a
/// field line stores the field held so far and holds its own; the line of a
/// label changes nothing.
pub open spec fn state_after(ls: Seq<Line>) -> ScanState
    decreases ls.len(),
{
    if ls.len() == 0 {
        ScanState { map: Map::empty(), key: Seq::empty(), value: Seq::empty(), in_key: true }
    } else {
        match ls.last() {
            Line::Field { key, raw } => ScanState {
                map: flushed(state_after(ls.drop_last())),
                key: key,
                value: clean(raw),
                in_key: false,
            },
            _ => state_after(ls.drop_last()),
        }
    }
}

/// The lines of labels stand only where the field held has an empty value.
pub open spec fn quiet(ls: Seq<Line>) -> bool
    decreases ls.len(),
{
    ls.len() == 0 || (quiet(ls.drop_last()) && (ls.last() is Field || state_after(
        ls.drop_last(),
    ).value.len() == 0))
}

/// Every field line has a key.
pub open spec fn keyed(ls: Seq<Line>) -> bool {
    forall|i: int| 0 <= i < ls.len() ==> ((#[trigger] ls[i]) is Field ==> is_key(ls[i]->key))
}

/// Every line is one that the writer makes.
pub open spec fn lines_ok(ls: Seq<Line>) -> bool {
    forall|i: int| 0 <= i < ls.len() ==> line_ok(#[trigger] ls[i])
}

/// The scanner, run over the texts of the lines, ends in the state that
/// their kinds say.
pub proof fn lemma_scan_agrees(ls: Seq<Line>)
    requires
        keyed(ls),
        quiet(ls),
    ensures
        scan_lines(render_all(ls)) == state_after(ls),
    decreases ls.len(),
{
    if ls.len() > 0 {
        let init = ls.drop_last();
        assert(render_all(ls).drop_last() =~= render_all(init));
        assert(render_all(ls).last() == render(ls.last()));
        assert forall|i: int| 0 <= i < init.len() implies ((#[trigger] init[i]) is Field ==> is_key(
            init[i]->key,
        )) by {
            assert(init[i] == ls[i]);
        }
        lemma_scan_agrees(init);
        assert(ls.last() == ls[ls.len() - 1]);
        match ls.last() {
            Line::Field { key, raw } => {
                lemma_field_scan(key, raw, state_after(init));
            },
            _ => {
                lemma_entry_scan(ls.last(), state_after(init));
            },
        }
    }
}

/// The value of the last field line with the key `k`, as it is read.
pub open spec fn last_field(ls: Seq<Line>, k: Seq<char>) -> Option<Seq<char>>
    decreases ls.len(),
{
    if ls.len() == 0 {
        None
    } else {
        match ls.last() {
            Line::Field { key, raw } => if key == k {
                Some(clean(clean(raw)))
            } else {
                last_field(ls.drop_last(), k)
            },
            _ => last_field(ls.drop_last(), k),
        }
    }
}

/// The map of the scanner holds, under every key, the value of the last
/// field line with that key.
pub proof fn lemma_lookup(ls: Seq<Line>, k: Seq<char>)
    requires
        keyed(ls),
    ensures
        field(flushed(state_after(ls)), k) == last_field(ls, k),
    decreases ls.len(),
{
    if ls.len() > 0 {
        let init = ls.drop_last();
        assert forall|i: int| 0 <= i < init.len() implies ((#[trigger] init[i]) is Field ==> is_key(
            init[i]->key,
        )) by {
            assert(init[i] == ls[i]);
        }
        lemma_lookup(init, k);
        assert(ls.last() == ls[ls.len() - 1]);
    }
}

/// All lines are field lines.
pub open spec fn all_fields(ls: Seq<Line>) -> bool {
    forall|i: int| 0 <= i < ls.len() ==> (#[trigger] ls[i]) is Field
}

/// No line is a field line.
pub open spec fn no_fields(ls: Seq<Line>) -> bool {
    forall|i: int| 0 <= i < ls.len() ==> (#[trigger] ls[i]) !is Field
}

/// Field lines after a quiet run keep it quiet.
pub proof fn lemma_quiet_fields(a: Seq<Line>, b: Seq<Line>)
    requires
        quiet(a),
        all_fields(b),
    ensures
        quiet(a + b),
    decreases b.len(),
{
    if b.len() == 0 {
        assert(a + b =~= a);
    } else {
        let init = b.drop_last();
        assert forall|i: int| 0 <= i < init.len() implies (#[trigger] init[i]) is Field by {
            assert(init[i] == b[i]);
        }
        lemma_quiet_fields(a, init);
        assert((a + b).drop_last() =~= a + init);
        assert((a + b).last() == b[b.len() - 1]);
    }
}

/// The lines of labels after a field with an empty value keep the run
/// quiet and the state as it is.
pub proof fn lemma_quiet_entries(a: Seq<Line>, b: Seq<Line>)
    requires
        quiet(a),
        state_after(a).value.len() == 0,
        no_fields(b),
    ensures
        quiet(a + b),
        state_after(a + b) == state_after(a),
    decreases b.len(),
{
    if b.len() == 0 {
        assert(a + b =~= a);
    } else {
        let init = b.drop_last();
        assert forall|i: int| 0 <= i < init.len() implies (#[trigger] init[i]) !is Field by {
            assert(init[i] == b[i]);
        }
        lemma_quiet_entries(a, init);
        assert((a + b).drop_last() =~= a + init);
        assert((a + b).last() == b[b.len() - 1]);
    }
}

/// What follows the colon of the first field line with the key `k`.
pub open spec fn first_raw(ls: Seq<Line>, k: Seq<char>) -> Option<Seq<char>>
    decreases ls.len(),
{
    if ls.len() == 0 {
        None
    } else {
        match ls[0] {
            Line::Field { key, raw } => if key == k {
                Some(raw)
            } else {
                first_raw(ls.drop_first(), k)
            },
            _ => first_raw(ls.drop_first(), k),
        }
    }
}

/// The numbers that a flow list after the colon of a field gives.
pub open spec fn numbers_in(raw: Option<Seq<char>>) -> Seq<u32> {
    match raw {
        Some(r) => match bracket_inner(trim(r)) {
            Some(inner) => flow_numbers(split(inner, ',')),
            None => Seq::empty(),
        },
        None => Seq::empty(),
    }
}

/// The reader of a list of numbers finds the first field line with the key.
pub proof fn lemma_numbers_agree(ls: Seq<Line>, k: Seq<char>, j: int)
    requires
        lines_ok(ls),
        is_key(k),
        k[0] != 'c',
        0 <= j <= ls.len(),
    ensures
        numbers_from(render_all(ls), k, j) == numbers_in(first_raw(ls.skip(j), k)),
    decreases ls.len() - j,
{
    if j < ls.len() {
        let rest = ls.skip(j);
        assert(rest[0] == ls[j]);
        assert(rest.drop_first() =~= ls.skip(j + 1));
        assert(render_all(ls)[j] == render(ls[j]));
        assert(line_ok(ls[j]));
        match ls[j] {
            Line::Field { key, raw } => {
                lemma_field_opens(key, raw, k);
                if key == k {
                    lemma_split_once_at(key, ':', raw);
                } else {
                    lemma_numbers_agree(ls, k, j + 1);
                }
            },
            _ => {
                lemma_entry_opens(ls[j], k);
                lemma_numbers_agree(ls, k, j + 1);
            },
        }
    } else {
        assert(ls.skip(j) =~= Seq::<Line>::empty());
    }
}

/// The lines of one label in the block list.
pub open spec fn label_block(l: LabelModel) -> Seq<Line> {
    match l.color {
        Some(c) => seq![Line::Name(l.name), Line::Color(c)],
        None => seq![Line::Name(l.name)],
    }
}

/// The lines of the labels in the block list.
pub open spec fn labels_block(labels: Seq<LabelModel>) -> Seq<Line>
    decreases labels.len(),
{
    if labels.len() == 0 {
        Seq::empty()
    } else {
        labels_block(labels.drop_last()) + label_block(labels.last())
    }
}

/// Every label has a name and a color that are read back as they are.
pub open spec fn labels_ok(labels: Seq<LabelModel>) -> bool {
    forall|i: int|
        0 <= i < labels.len() ==> is_token((#[trigger] labels[i]).name) && (labels[i].color is Some
            ==> is_color(labels[i].color->0))
}

/// The lines of the labels, said from the front.
pub proof fn lemma_labels_block_front(labels: Seq<LabelModel>)
    requires
        labels.len() > 0,
    ensures
        labels_block(labels) == label_block(labels[0]) + labels_block(labels.drop_first()),
    decreases labels.len(),
{
    if labels.len() == 1 {
        assert(labels.drop_last() =~= Seq::<LabelModel>::empty());
        assert(labels.drop_first() =~= Seq::<LabelModel>::empty());
        assert(labels_block(labels) =~= label_block(labels[0]) + labels_block(labels.drop_first()));
    } else {
        let init = labels.drop_last();
        lemma_labels_block_front(init);
        assert(init.drop_first() =~= labels.drop_first().drop_last());
        assert(labels.drop_first().last() == labels.last());
        assert(labels_block(labels) =~= label_block(labels[0]) + labels_block(labels.drop_first()));
    }
}

/// The lines of the labels are lines of labels that the writer makes.
pub proof fn lemma_labels_block_shape(labels: Seq<LabelModel>)
    requires
        labels_ok(labels),
    ensures
        no_fields(labels_block(labels)),
        lines_ok(labels_block(labels)),
    decreases labels.len(),
{
    if labels.len() > 0 {
        let init = labels.drop_last();
        assert forall|i: int| 0 <= i < init.len() implies is_token((#[trigger] init[i]).name) && (
        init[i].color is Some ==> is_color(init[i].color->0)) by {
            assert(init[i] == labels[i]);
        }
        lemma_labels_block_shape(init);
        let b = labels_block(labels);
        let last = labels[labels.len() - 1];
        assert(is_token(last.name));
        assert forall|i: int| 0 <= i < b.len() implies (#[trigger] b[i]) !is Field && line_ok(
            b[i],
        ) by {
            if i < labels_block(init).len() {
                assert(b[i] == labels_block(init)[i]);
            } else {
                assert(b[i] == label_block(last)[i - labels_block(init).len()]);
            }
        }
    }
}

/// The reader of labels, inside a block that began without indentation,
/// reads the lines of the labels back and goes on behind them, where a
/// field line follows that is not the field `color`.
pub proof fn lemma_walk_labels(ls: Seq<Line>, start: int, labels: Seq<LabelModel>)
    requires
        lines_ok(ls),
        labels_ok(labels),
        0 <= start,
        start + labels_block(labels).len() < ls.len(),
        ls.subrange(start, start + labels_block(labels).len()) == labels_block(labels),
        ls[start + labels_block(labels).len()] is Field,
        ls[start + labels_block(labels).len()]->key != "color"@,
    ensures
        labels_from(render_all(ls), start, true, 0) == labels + labels_from(
            render_all(ls),
            start + labels_block(labels).len(),
            true,
            0,
        ),
    decreases labels.len(),
{
    let r = render_all(ls);
    let end = start + labels_block(labels).len();
    if labels.len() == 0 {
        assert(labels + labels_from(r, end, true, 0) =~= labels_from(r, start, true, 0));
    } else {
        lemma_literals();
        reveal_strlit("color");
        reveal_strlit("labels");
        let l = labels[0];
        let rest = labels.drop_first();
        lemma_labels_block_front(labels);
        let block = labels_block(labels);
        let own = label_block(l);
        assert(is_token(l.name));
        assert(ls[start] == block[0]);
        assert(block[0] == own[0]);
        assert(ls[start] == Line::Name(l.name));
        assert(r[start] == render(ls[start]));
        lemma_name_line(l.name);
        assert("labels"@ + seq![':'] =~= "labels:"@);
        assert(is_key("labels"@));
        lemma_entry_opens(ls[start], "labels"@);
        let next = start + own.len();
        assert forall|i: int| 0 <= i < rest.len() implies is_token((#[trigger] rest[i]).name) && (
        rest[i].color is Some ==> is_color(rest[i].color->0)) by {
            assert(rest[i] == labels[i + 1]);
        }
        assert(ls.subrange(next, next + labels_block(rest).len()) =~= labels_block(rest)) by {
            assert forall|t: int| 0 <= t < labels_block(rest).len() implies ls.subrange(
                next,
                next + labels_block(rest).len(),
            )[t] == labels_block(rest)[t] by {
                assert(ls[next + t] == block[own.len() + t]);
            }
        }
        lemma_walk_labels(ls, next, rest);
        assert(r[start + 1] == render(ls[start + 1]));
        assert("color"@ + seq![':'] =~= "color:"@);
        if l.color is Some {
            let c = l.color->0;
            assert(ls[start + 1] == block[1]);
            assert(block[1] == own[1]);
            assert(is_color(c));
            lemma_color_line(c);
        } else {
            assert(line_ok(ls[start + 1]));
            match ls[start + 1] {
                Line::Field { key, raw } => {
                    assert(next == end) by {
                        if rest.len() > 0 {
                            lemma_labels_block_front(rest);
                            assert(ls[start + 1] == block[1]);
                            assert(block[1] == labels_block(rest)[0]);
                            assert(labels_block(rest)[0] == label_block(rest[0])[0]);
                        } else {
                            assert(labels_block(rest) =~= Seq::<Line>::empty());
                        }
                    }
                    assert(is_key("color"@));
                    lemma_field_opens(key, raw, "color"@);
                },
                Line::Name(n) => {
                    lemma_name_line(n);
                    let t = trim_start(render(Line::Name(n)));
                    if occurs_at(t, "color:"@, 0) {
                        assert(t.subrange(0, 6)[0] == t[0]);
                    }
                },
                Line::Color(c) => {
                    assert(rest.len() > 0) by {
                        if rest.len() == 0 {
                            assert(labels_block(rest) =~= Seq::<Line>::empty());
                        }
                    }
                    lemma_labels_block_front(rest);
                    assert(ls[start + 1] == block[1]);
                    assert(block[1] == labels_block(rest)[0]);
                    assert(labels_block(rest)[0] == label_block(rest[0])[0]);
                },
            }
        }
        assert(seq![l] + rest =~= labels);
        assert(labels_from(r, start, true, 0) =~= seq![l] + labels_from(r, next, true, 0));
        assert(seq![l] + (rest + labels_from(r, end, true, 0)) =~= labels + labels_from(
            r,
            end,
            true,
            0,
        ));
    }
}

/// Over field lines that are not the field `labels` the reader of labels
/// goes on without reading any; a block that is open ends at the first of them.
pub proof fn lemma_skip_fields(ls: Seq<Line>, from: int, to: int, in_labels: bool)
    requires
        lines_ok(ls),
        0 <= from <= to <= ls.len(),
        forall|t: int| from <= t < to ==> (#[trigger] ls[t]) is Field && ls[t]->key != "labels"@,
    ensures
        labels_from(render_all(ls), from, in_labels, 0) == labels_from(
            render_all(ls),
            to,
            if from < to {
                false
            } else {
                in_labels
            },
            0,
        ),
    decreases to - from,
{
    if from < to {
        lemma_literals();
        reveal_strlit("labels");
        assert("labels"@ + seq![':'] =~= "labels:"@);
        assert(is_key("labels"@));
        assert(ls[from] is Field);
        assert(line_ok(ls[from]));
        assert(render_all(ls)[from] == render(ls[from]));
        match ls[from] {
            Line::Field { key, raw } => {
                lemma_field_opens(key, raw, "labels"@);
            },
            _ => {},
        }
        lemma_skip_fields(ls, from + 1, to, false);
    }
}

/// What follows the colon of each field line with the key `k`, in order.
pub open spec fn field_raws(ls: Seq<Line>, k: Seq<char>) -> Seq<Seq<char>>
    decreases ls.len(),
{
    if ls.len() == 0 {
        Seq::empty()
    } else {
        match ls.last() {
            Line::Field { key, raw } => if key == k {
                field_raws(ls.drop_last(), k).push(raw)
            } else {
                field_raws(ls.drop_last(), k)
            },
            _ => field_raws(ls.drop_last(), k),
        }
    }
}

/// What one line gives for the key `k`.
pub open spec fn raws_one(l: Line, k: Seq<char>) -> Seq<Seq<char>> {
    match l {
        Line::Field { key, raw } => if key == k {
            seq![raw]
        } else {
            Seq::empty()
        },
        _ => Seq::empty(),
    }
}

proof fn lemma_raws_concat(a: Seq<Line>, b: Seq<Line>, k: Seq<char>)
    ensures
        field_raws(a + b, k) == field_raws(a, k) + field_raws(b, k),
    decreases b.len(),
{
    if b.len() == 0 {
        assert(a + b =~= a);
        assert(field_raws(a, k) + field_raws(b, k) =~= field_raws(a, k));
    } else {
        lemma_raws_concat(a, b.drop_last(), k);
        assert((a + b).drop_last() =~= a + b.drop_last());
        assert((a + b).last() == b.last());
        assert(field_raws(a + b, k) =~= field_raws(a, k) + field_raws(b, k));
    }
}

proof fn lemma_raws_one(l: Line, k: Seq<char>)
    ensures
        field_raws(seq![l], k) == raws_one(l, k),
{
    let s = seq![l];
    let e = s.drop_last();
    assert(e.len() == 0);
    assert(field_raws(e, k) =~= Seq::<Seq<char>>::empty());
    assert(s.last() == l);
    assert(Seq::<Seq<char>>::empty().push(s.last()->raw) =~= seq![s.last()->raw]);
    assert(field_raws(s, k) =~= raws_one(l, k));
}

proof fn lemma_raws_entries(b: Seq<Line>, k: Seq<char>)
    requires
        no_fields(b),
    ensures
        field_raws(b, k) == Seq::<Seq<char>>::empty(),
    decreases b.len(),
{
    if b.len() > 0 {
        let init = b.drop_last();
        assert forall|i: int| 0 <= i < init.len() implies (#[trigger] init[i]) !is Field by {
            assert(init[i] == b[i]);
        }
        lemma_raws_entries(init, k);
        assert(b.last() == b[b.len() - 1]);
    }
}

proof fn lemma_last_field_is(ls: Seq<Line>, k: Seq<char>)
    ensures
        last_field(ls, k) == (if field_raws(ls, k).len() > 0 {
            Some(clean(clean(field_raws(ls, k).last())))
        } else {
            None
        }),
    decreases ls.len(),
{
    if ls.len() > 0 {
        lemma_last_field_is(ls.drop_last(), k);
    }
}

proof fn lemma_first_raw_is(ls: Seq<Line>, k: Seq<char>)
    ensures
        first_raw(ls, k) == (if field_raws(ls, k).len() > 0 {
            Some(field_raws(ls, k)[0])
        } else {
            None
        }),
    decreases ls.len(),
{
    if ls.len() > 0 {
        let rest = ls.drop_first();
        lemma_first_raw_is(rest, k);
        assert(seq![ls[0]] + rest =~= ls);
        lemma_raws_concat(seq![ls[0]], rest, k);
        lemma_raws_one(ls[0], k);
    }
}

/// A field line.
pub open spec fn field_of(key: Seq<char>, raw: Seq<char>) -> Line {
    Line::Field { key, raw }
}

/// The line, where `present` holds; no line otherwise.
pub open spec fn opt_line(present: bool, l: Line) -> Seq<Line> {
    if present {
        seq![l]
    } else {
        Seq::empty()
    }
}

/// What follows the colon of the field `labels`: an empty flow list where
/// there are no labels, nothing where the block list follows.
pub open spec fn labels_raw(labels: Seq<LabelModel>) -> Seq<char> {
    if labels.len() == 0 {
        bare_raw("[]"@)
    } else {
        Seq::empty()
    }
}

/// What follows the colon of the field `assignee`.
pub open spec fn assignee_raw(a: Option<Seq<char>>) -> Seq<char> {
    match a {
        Some(x) => quoted_raw(x),
        None => bare_raw("null"@),
    }
}

/// What follows the colon of the field `parent`.
pub open spec fn parent_raw(p: Option<u32>) -> Seq<char> {
    match p {
        Some(x) => bare_raw(decimal(x as nat)),
        None => bare_raw("null"@),
    }
}

/// The lines of the frontmatter of an issue, by their kinds.
pub open spec fn kinds(i: IssueModel) -> Seq<Line> {
    seq![field_of("id"@, bare_raw(decimal(i.id as nat)))] + seq![
        field_of("title"@, quoted_raw(i.title)),
    ] + seq![field_of("slug"@, quoted_raw(i.slug))] + seq![
        field_of("type"@, bare_raw(i.issue_type)),
    ] + seq![field_of("status"@, bare_raw(i.status))] + seq![
        field_of("priority"@, bare_raw(i.priority)),
    ] + seq![field_of("labels"@, labels_raw(i.labels))] + labels_block(i.labels) + seq![
        field_of("assignee"@, assignee_raw(i.assignee)),
    ] + opt_line(i.milestone is Some, field_of("milestone"@, quoted_raw(i.milestone->0))) + seq![
        field_of("parent"@, parent_raw(i.parent)),
    ] + seq![field_of("dependencies"@, bare_raw(id_list(i.dependencies)))] + opt_line(
        i.epic_children.len() > 0,
        field_of("epic_children"@, bare_raw(id_list(i.epic_children))),
    ) + opt_line(i.points is Some, field_of("points"@, bare_raw(decimal(i.points->0 as nat))))
        + opt_line(i.due is Some, field_of("due"@, quoted_raw(i.due->0))) + seq![
        field_of("created_at"@, quoted_raw(i.created_at)),
    ] + seq![field_of("updated_at"@, quoted_raw(i.updated_at))]
}

/// What the lines of the frontmatter give for the key `k`, line by line.
pub open spec fn kinds_raws(i: IssueModel, k: Seq<char>) -> Seq<Seq<char>> {
    raws_one(field_of("id"@, bare_raw(decimal(i.id as nat))), k) + raws_one(
        field_of("title"@, quoted_raw(i.title)),
        k,
    ) + raws_one(field_of("slug"@, quoted_raw(i.slug)), k) + raws_one(
        field_of("type"@, bare_raw(i.issue_type)),
        k,
    ) + raws_one(field_of("status"@, bare_raw(i.status)), k) + raws_one(
        field_of("priority"@, bare_raw(i.priority)),
        k,
    ) + raws_one(field_of("labels"@, labels_raw(i.labels)), k) + raws_one(
        field_of("assignee"@, assignee_raw(i.assignee)),
        k,
    ) + (if i.milestone is Some {
        raws_one(field_of("milestone"@, quoted_raw(i.milestone->0)), k)
    } else {
        Seq::empty()
    }) + raws_one(field_of("parent"@, parent_raw(i.parent)), k) + raws_one(
        field_of("dependencies"@, bare_raw(id_list(i.dependencies))),
        k,
    ) + (if i.epic_children.len() > 0 {
        raws_one(field_of("epic_children"@, bare_raw(id_list(i.epic_children))), k)
    } else {
        Seq::empty()
    }) + (if i.points is Some {
        raws_one(field_of("points"@, bare_raw(decimal(i.points->0 as nat))), k)
    } else {
        Seq::empty()
    }) + (if i.due is Some {
        raws_one(field_of("due"@, quoted_raw(i.due->0)), k)
    } else {
        Seq::empty()
    }) + raws_one(field_of("created_at"@, quoted_raw(i.created_at)), k) + raws_one(
        field_of("updated_at"@, quoted_raw(i.updated_at)),
        k,
    )
}

proof fn lemma_raws_opt(present: bool, l: Line, k: Seq<char>)
    ensures
        field_raws(opt_line(present, l), k) == (if present {
            raws_one(l, k)
        } else {
            Seq::empty()
        }),
{
    if present {
        lemma_raws_one(l, k);
    }
}

proof fn lemma_kinds_raws(i: IssueModel, k: Seq<char>)
    requires
        labels_ok(i.labels),
    ensures
        field_raws(kinds(i), k) == kinds_raws(i, k),
{
    let part1 = seq![field_of("id"@, bare_raw(decimal(i.id as nat)))];
    let part2 = seq![field_of("title"@, quoted_raw(i.title))];
    let part3 = seq![field_of("slug"@, quoted_raw(i.slug))];
    let part4 = seq![field_of("type"@, bare_raw(i.issue_type))];
    let part5 = seq![field_of("status"@, bare_raw(i.status))];
    let part6 = seq![field_of("priority"@, bare_raw(i.priority))];
    let part7 = seq![field_of("labels"@, labels_raw(i.labels))];
    let part8 = labels_block(i.labels);
    let part9 = seq![field_of("assignee"@, assignee_raw(i.assignee))];
    let part10 = opt_line(i.milestone is Some, field_of("milestone"@, quoted_raw(i.milestone->0)));
    let part11 = seq![field_of("parent"@, parent_raw(i.parent))];
    let part12 = seq![field_of("dependencies"@, bare_raw(id_list(i.dependencies)))];
    let part13 = opt_line(
        i.epic_children.len() > 0,
        field_of("epic_children"@, bare_raw(id_list(i.epic_children))),
    );
    let part14 = opt_line(i.points is Some, field_of("points"@, bare_raw(decimal(i.points->0 as nat))));
    let part15 = opt_line(i.due is Some, field_of("due"@, quoted_raw(i.due->0)));
    let part16 = seq![field_of("created_at"@, quoted_raw(i.created_at))];
    let part17 = seq![field_of("updated_at"@, quoted_raw(i.updated_at))];
    lemma_raws_one(part1[0], k);
    lemma_raws_one(part2[0], k);
    lemma_raws_one(part3[0], k);
    lemma_raws_one(part4[0], k);
    lemma_raws_one(part5[0], k);
    lemma_raws_one(part6[0], k);
    lemma_raws_one(part7[0], k);
    lemma_labels_block_shape(i.labels);
    lemma_raws_entries(part8, k);
    lemma_raws_one(part9[0], k);
    lemma_raws_opt(i.milestone is Some, field_of("milestone"@, quoted_raw(i.milestone->0)), k);
    lemma_raws_one(part11[0], k);
    lemma_raws_one(part12[0], k);
    lemma_raws_opt(
        i.epic_children.len() > 0,
        field_of("epic_children"@, bare_raw(id_list(i.epic_children))),
        k,
    );
    lemma_raws_opt(
        i.points is Some,
        field_of("points"@, bare_raw(decimal(i.points->0 as nat))),
        k,
    );
    lemma_raws_opt(i.due is Some, field_of("due"@, quoted_raw(i.due->0)), k);
    lemma_raws_one(part16[0], k);
    lemma_raws_one(part17[0], k);
    let a2 = part1 + part2;
    let a3 = a2 + part3;
    let a4 = a3 + part4;
    let a5 = a4 + part5;
    let a6 = a5 + part6;
    let a7 = a6 + part7;
    let a8 = a7 + part8;
    let a9 = a8 + part9;
    let a10 = a9 + part10;
    let a11 = a10 + part11;
    let a12 = a11 + part12;
    let a13 = a12 + part13;
    let a14 = a13 + part14;
    let a15 = a14 + part15;
    let a16 = a15 + part16;
    let a17 = a16 + part17;
    lemma_raws_concat(part1, part2, k);
    lemma_raws_concat(a2, part3, k);
    lemma_raws_concat(a3, part4, k);
    lemma_raws_concat(a4, part5, k);
    lemma_raws_concat(a5, part6, k);
    lemma_raws_concat(a6, part7, k);
    lemma_raws_concat(a7, part8, k);
    lemma_raws_concat(a8, part9, k);
    lemma_raws_concat(a9, part10, k);
    lemma_raws_concat(a10, part11, k);
    lemma_raws_concat(a11, part12, k);
    lemma_raws_concat(a12, part13, k);
    lemma_raws_concat(a13, part14, k);
    lemma_raws_concat(a14, part15, k);
    lemma_raws_concat(a15, part16, k);
    lemma_raws_concat(a16, part17, k);
    assert(kinds(i) == a17);
    assert(field_raws(a8, k) =~= field_raws(a7, k));
    assert(field_raws(kinds(i), k) =~= kinds_raws(i, k));
}

/// A text without double quotes and backslashes is written as it is.
pub proof fn lemma_escaped_id(x: Seq<char>)
    requires
        no_char(x, '"'),
        no_char(x, '\\'),
    ensures
        escaped(x) == x,
    decreases x.len(),
{
    if x.len() > 0 {
        lemma_escaped_id(x.drop_last());
        assert(x.drop_last().push(x.last()) =~= x);
    } else {
        assert(x =~= Seq::<char>::empty());
    }
}

/// The decimal form of a number holds digits only.
pub proof fn lemma_decimal_shape(n: nat)
    ensures
        is_bare(decimal(n)),
        no_char(decimal(n), ','),
        decimal(n).len() > 0,
        decimal(n)[0] != '+',
{
    lemma_decimal_value(n);
    let d = decimal(n);
    assert forall|i: int| 0 <= i < d.len() implies d[i] != '\n' && d[i] != ',' by {
        assert(digit_value(d[i]) is Some);
    }
    assert(digit_value(d[0]) is Some);
    assert(digit_value(d.last()) is Some);
}

/// The numbers of two runs of parts are those of the first, then those of
/// the second.
proof fn lemma_flow_numbers_concat(a: Seq<Seq<char>>, b: Seq<Seq<char>>)
    ensures
        flow_numbers(a + b) == flow_numbers(a) + flow_numbers(b),
    decreases b.len(),
{
    if b.len() == 0 {
        assert(a + b =~= a);
        assert(flow_numbers(a) + flow_numbers(b) =~= flow_numbers(a));
    } else {
        lemma_flow_numbers_concat(a, b.drop_last());
        assert((a + b).drop_last() =~= a + b.drop_last());
        assert((a + b).last() == b.last());
        assert(flow_numbers(a + b) =~= flow_numbers(a) + flow_numbers(b));
    }
}

/// The decimal forms joined by `, ` hold no newline.
proof fn lemma_list_shape(v: Seq<u32>)
    ensures
        no_char(join(decimals(v), ", "@), '\n'),
    decreases v.len(),
{
    reveal_strlit(", ");
    let ds = decimals(v);
    if v.len() == 0 {
    } else if v.len() == 1 {
        lemma_decimal_shape(v[0] as nat);
        assert(ds[0] == decimal(v[0] as nat));
    } else {
        lemma_list_shape(v.drop_last());
        assert(ds.drop_last() =~= decimals(v.drop_last()));
        assert(ds.last() == decimal(v.last() as nat));
        lemma_decimal_shape(v.last() as nat);
        let j = join(ds, ", "@);
        let a = join(ds.drop_last(), ", "@);
        assert forall|i: int| 0 <= i < j.len() implies j[i] != '\n' by {
            if i < a.len() {
                assert(j[i] == a[i]);
            } else if i >= a.len() + 2 {
                assert(j[i] == ds.last()[i - a.len() - 2]);
            }
        }
    }
}

/// Reading a list of numbers that was written with `, ` between them,
/// after whitespace, gives the numbers back.
proof fn lemma_flow_list(pre: Seq<char>, v: Seq<u32>)
    requires
        v.len() > 0,
        forall|i: int| 0 <= i < pre.len() ==> is_whitespace(#[trigger] pre[i]),
    ensures
        flow_numbers(split(pre + join(decimals(v), ", "@), ',')) == v,
    decreases v.len(),
{
    reveal_strlit(", ");
    let ds = decimals(v);
    let d0 = decimal(v[0] as nat);
    assert(ds[0] == d0);
    lemma_decimal_shape(v[0] as nat);
    lemma_parse_decimal(v[0]);
    lemma_strip_wrapped(pre, d0, Seq::empty(), CharClass::Whitespace);
    assert(pre + d0 + Seq::<char>::empty() =~= pre + d0);
    let head = pre + d0;
    assert forall|i: int| 0 <= i < head.len() implies head[i] != ',' by {
        if i < pre.len() {
            assert(head[i] == pre[i]);
        } else {
            assert(head[i] == d0[i - pre.len()]);
        }
    }
    let one = seq![head];
    assert(one.drop_last() =~= Seq::<Seq<char>>::empty());
    assert(flow_numbers(one.drop_last()) =~= Seq::<u32>::empty());
    assert(flow_numbers(one) =~= seq![v[0]]);
    if v.len() == 1 {
        assert(ds.drop_last() =~= Seq::<Seq<char>>::empty());
        assert(join(ds, ", "@) == d0);
        lemma_index_of_absent(head, ',');
        assert(split(head, ',') == one);
        assert(v =~= seq![v[0]]);
    } else {
        let rest = v.drop_first();
        lemma_join_front(ds, ", "@);
        assert(ds.drop_first() =~= decimals(rest));
        let jr = join(decimals(rest), ", "@);
        let tail = seq![' '] + jr;
        assert(pre + join(ds, ", "@) =~= head + seq![','] + tail);
        lemma_split_once_at(head, ',', tail);
        let s = head + seq![','] + tail;
        assert(s.take(head.len() as int) =~= head);
        assert(s.skip(head.len() as int + 1) =~= tail);
        assert(split(s, ',') == one + split(tail, ','));
        lemma_flow_list(seq![' '], rest);
        lemma_flow_numbers_concat(one, split(tail, ','));
        assert(seq![v[0]] + rest =~= v);
    }
}

/// Reading a list of ids that was just written gives the ids back.
pub proof fn lemma_id_list(v: Seq<u32>)
    ensures
        numbers_in(Some(bare_raw(id_list(v)))) == v,
        raw_ok(bare_raw(id_list(v))),
{
    reveal_strlit(", ");
    let j = join(decimals(v), ", "@);
    let l = id_list(v);
    lemma_list_shape(v);
    assert(l[0] == '[');
    assert(l.last() == ']');
    lemma_strip_wrapped(seq![' '], l, Seq::empty(), CharClass::Whitespace);
    assert(seq![' '] + l + Seq::<char>::empty() =~= bare_raw(l));
    assert(l.subrange(1, l.len() - 1) =~= j);
    if v.len() == 0 {
        assert(j =~= Seq::<char>::empty());
        lemma_index_of_absent(j, ',');
        let one = seq![j];
        assert(split(j, ',') == one);
        assert(one.drop_last() =~= Seq::<Seq<char>>::empty());
        lemma_strip_id(j, CharClass::Whitespace);
        assert(digits_value(j) is None);
        assert(parse_u32(j) is None);
        assert(flow_numbers(one.drop_last()) =~= Seq::<u32>::empty());
        assert(flow_numbers(one) =~= v);
    } else {
        lemma_flow_list(Seq::empty(), v);
        assert(Seq::<char>::empty() + j =~= j);
    }
    let r = bare_raw(l);
    assert forall|i: int| 0 <= i < r.len() implies r[i] != '\n' by {
        if 2 <= i < r.len() - 1 {
            assert(r[i] == j[i - 2]);
        }
    }
    assert(r.last() == ']');
}

/// The word `null` is a bare value and no number; the empty flow list is a
/// bare value that holds no names.
pub proof fn lemma_words()
    ensures
        is_bare("null"@),
        parse_u32("null"@) is None,
        "null"@.len() > 0,
        is_bare("[]"@),
        clean(Seq::<char>::empty()) == Seq::<char>::empty(),
{
    reveal_strlit("null");
    reveal_strlit("[]");
    let n = "null"@;
    assert(n.last() == 'l');
    assert(digit_value(n.last()) is None);
    assert(digits_value(n) is None);
    let b = "[]"@;
    assert(b.last() == ']');
    lemma_strip_id(Seq::<char>::empty(), CharClass::Whitespace);
    lemma_strip_id(Seq::<char>::empty(), CharClass::Only('"'));
    lemma_strip_id(Seq::<char>::empty(), CharClass::Only('\''));
}

/// The texts of the lines of the labels are what the writer writes for them.
pub proof fn lemma_render_labels(labels: Seq<LabelModel>)
    requires
        labels_ok(labels),
    ensures
        render_all(labels_block(labels)) == label_entries(labels),
    decreases labels.len(),
{
    if labels.len() == 0 {
        assert(render_all(labels_block(labels)) =~= label_entries(labels));
    } else {
        let init = labels.drop_last();
        let l = labels.last();
        assert forall|i: int| 0 <= i < init.len() implies is_token((#[trigger] init[i]).name) && (
        init[i].color is Some ==> is_color(init[i].color->0)) by {
            assert(init[i] == labels[i]);
        }
        lemma_render_labels(init);
        assert(l == labels[labels.len() - 1]);
        lemma_escaped_id(l.name);
        assert(render_all(label_block(l)) =~= label_entry(l));
        assert(render_all(labels_block(init) + label_block(l)) =~= render_all(labels_block(init))
            + render_all(label_block(l)));
    }
}

/// A field line with a bare value is the line that the writer writes.
pub proof fn lemma_render_plain(key: Seq<char>, v: Seq<char>)
    ensures
        render(field_of(key, bare_raw(v))) == plain_line(key, v),
{
    reveal_strlit(": ");
    assert(key + seq![':'] + bare_raw(v) =~= key + ": "@ + v);
}

/// A field line with a quoted value is the line that the writer writes.
pub proof fn lemma_render_quoted(key: Seq<char>, x: Seq<char>)
    ensures
        render(field_of(key, quoted_raw(x))) == quoted_line(key, x),
{
    reveal_strlit(": \"");
    reveal_strlit("\"");
    assert(key + seq![':'] + quoted_raw(x) =~= key + ": \""@ + x + "\""@);
}

/// The record is built from values that the codec reads back as they are.
/// The fields that are written with escapes (title, assignee, milestone and
/// the names of labels) hold no double quote and no backslash, since the
/// reader undoes no escape. Every text field is bare: on one line, with no
/// whitespace and no quote at either end. The name of a label is one word
/// that does not hold `name:`; its color has no whitespace, no double quote
/// at either end and does not hold `color:`. An assignee, a milestone and a
/// due date that are present are not empty, and the assignee is not `null`.
/// The body has no whitespace at its ends.
pub open spec fn codec_domain(i: IssueModel) -> bool {
    &&& is_plain(i.title)
    &&& is_bare(i.slug)
    &&& is_bare(i.issue_type)
    &&& is_bare(i.status)
    &&& is_bare(i.priority)
    &&& labels_ok(i.labels)
    &&& (i.assignee is Some ==> is_plain(i.assignee->0) && i.assignee->0.len() > 0 && i.assignee->0
        != "null"@)
    &&& (i.milestone is Some ==> is_plain(i.milestone->0) && i.milestone->0.len() > 0)
    &&& (i.due is Some ==> is_bare(i.due->0) && i.due->0.len() > 0)
    &&& is_bare(i.created_at)
    &&& is_bare(i.updated_at)
    &&& clear_of(i.body, CharClass::Whitespace)
}

proof fn lemma_keys()
    ensures
        "id"@ == seq!['i', 'd'],
        "title"@ == seq!['t', 'i', 't', 'l', 'e'],
        "slug"@ == seq!['s', 'l', 'u', 'g'],
        "type"@ == seq!['t', 'y', 'p', 'e'],
        "status"@ == seq!['s', 't', 'a', 't', 'u', 's'],
        "priority"@ == seq!['p', 'r', 'i', 'o', 'r', 'i', 't', 'y'],
        "labels"@ == seq!['l', 'a', 'b', 'e', 'l', 's'],
        "assignee"@ == seq!['a', 's', 's', 'i', 'g', 'n', 'e', 'e'],
        "milestone"@ == seq!['m', 'i', 'l', 'e', 's', 't', 'o', 'n', 'e'],
        "parent"@ == seq!['p', 'a', 'r', 'e', 'n', 't'],
        "dependencies"@ == seq!['d', 'e', 'p', 'e', 'n', 'd', 'e', 'n', 'c', 'i', 'e', 's'],
        "epic_children"@ == seq!['e', 'p', 'i', 'c', '_', 'c', 'h', 'i', 'l', 'd', 'r', 'e', 'n'],
        "points"@ == seq!['p', 'o', 'i', 'n', 't', 's'],
        "due"@ == seq!['d', 'u', 'e'],
        "created_at"@ == seq!['c', 'r', 'e', 'a', 't', 'e', 'd', '_', 'a', 't'],
        "updated_at"@ == seq!['u', 'p', 'd', 'a', 't', 'e', 'd', '_', 'a', 't'],
        "color"@ == seq!['c', 'o', 'l', 'o', 'r'],
        is_key("id"@),
        is_key("title"@),
        is_key("slug"@),
        is_key("type"@),
        is_key("status"@),
        is_key("priority"@),
        is_key("labels"@),
        is_key("assignee"@),
        is_key("milestone"@),
        is_key("parent"@),
        is_key("dependencies"@),
        is_key("epic_children"@),
        is_key("points"@),
        is_key("due"@),
        is_key("created_at"@),
        is_key("updated_at"@),
        is_key("color"@),
{
    reveal_strlit("id");
    reveal_strlit("title");
    reveal_strlit("slug");
    reveal_strlit("type");
    reveal_strlit("status");
    reveal_strlit("priority");
    reveal_strlit("labels");
    reveal_strlit("assignee");
    reveal_strlit("milestone");
    reveal_strlit("parent");
    reveal_strlit("dependencies");
    reveal_strlit("epic_children");
    reveal_strlit("points");
    reveal_strlit("due");
    reveal_strlit("created_at");
    reveal_strlit("updated_at");
    reveal_strlit("color");
    assert("id"@ =~= seq!['i', 'd']);
    assert("title"@ =~= seq!['t', 'i', 't', 'l', 'e']);
    assert("slug"@ =~= seq!['s', 'l', 'u', 'g']);
    assert("type"@ =~= seq!['t', 'y', 'p', 'e']);
    assert("status"@ =~= seq!['s', 't', 'a', 't', 'u', 's']);
    assert("priority"@ =~= seq!['p', 'r', 'i', 'o', 'r', 'i', 't', 'y']);
    assert("labels"@ =~= seq!['l', 'a', 'b', 'e', 'l', 's']);
    assert("assignee"@ =~= seq!['a', 's', 's', 'i', 'g', 'n', 'e', 'e']);
    assert("milestone"@ =~= seq!['m', 'i', 'l', 'e', 's', 't', 'o', 'n', 'e']);
    assert("parent"@ =~= seq!['p', 'a', 'r', 'e', 'n', 't']);
    assert("dependencies"@ =~= seq!['d', 'e', 'p', 'e', 'n', 'd', 'e', 'n', 'c', 'i', 'e', 's']);
    assert("epic_children"@ =~= seq![
        'e',
        'p',
        'i',
        'c',
        '_',
        'c',
        'h',
        'i',
        'l',
        'd',
        'r',
        'e',
        'n',
    ]);
    assert("points"@ =~= seq!['p', 'o', 'i', 'n', 't', 's']);
    assert("due"@ =~= seq!['d', 'u', 'e']);
    assert("created_at"@ =~= seq!['c', 'r', 'e', 'a', 't', 'e', 'd', '_', 'a', 't']);
    assert("updated_at"@ =~= seq!['u', 'p', 'd', 'a', 't', 'e', 'd', '_', 'a', 't']);
    assert("color"@ =~= seq!['c', 'o', 'l', 'o', 'r']);
}

/// Field lines that the writer makes, none of them the field `labels` or
/// the field `color`.
pub open spec fn plain_fields(ls: Seq<Line>) -> bool {
    forall|t: int|
        0 <= t < ls.len() ==> (#[trigger] ls[t]) is Field && line_ok(ls[t]) && ls[t]->key
            != "labels"@ && ls[t]->key != "color"@
}

proof fn lemma_plain_fields_concat(a: Seq<Line>, b: Seq<Line>)
    requires
        plain_fields(a),
        plain_fields(b),
    ensures
        plain_fields(a + b),
{
    assert forall|t: int| 0 <= t < (a + b).len() implies (#[trigger] (a + b)[t]) is Field
        && line_ok((a + b)[t]) && (a + b)[t]->key != "labels"@ && (a + b)[t]->key != "color"@ by {
        if t < a.len() {
            assert((a + b)[t] == a[t]);
        } else {
            assert((a + b)[t] == b[t - a.len()]);
        }
    }
}

proof fn lemma_lines_ok_concat(a: Seq<Line>, b: Seq<Line>)
    requires
        lines_ok(a),
        lines_ok(b),
    ensures
        lines_ok(a + b),
{
    assert forall|t: int| 0 <= t < (a + b).len() implies line_ok(#[trigger] (a + b)[t]) by {
        if t < a.len() {
            assert((a + b)[t] == a[t]);
        } else {
            assert((a + b)[t] == b[t - a.len()]);
        }
    }
}

proof fn lemma_render_concat(a: Seq<Line>, b: Seq<Line>)
    ensures
        render_all(a + b) == render_all(a) + render_all(b),
{
    assert(render_all(a + b) =~= render_all(a) + render_all(b));
}

/// The lines before the labels, by their kinds.
pub open spec fn head_kinds(i: IssueModel) -> Seq<Line> {
    seq![field_of("id"@, bare_raw(decimal(i.id as nat)))] + seq![
        field_of("title"@, quoted_raw(i.title)),
    ] + seq![field_of("slug"@, quoted_raw(i.slug))] + seq![
        field_of("type"@, bare_raw(i.issue_type)),
    ] + seq![field_of("status"@, bare_raw(i.status))] + seq![
        field_of("priority"@, bare_raw(i.priority)),
    ]
}

/// The line that opens the labels.
pub open spec fn opener(i: IssueModel) -> Line {
    field_of("labels"@, labels_raw(i.labels))
}

/// The lines after the labels, by their kinds.
pub open spec fn tail_kinds(i: IssueModel) -> Seq<Line> {
    seq![field_of("assignee"@, assignee_raw(i.assignee))] + opt_line(
        i.milestone is Some,
        field_of("milestone"@, quoted_raw(i.milestone->0)),
    ) + seq![field_of("parent"@, parent_raw(i.parent))] + seq![
        field_of("dependencies"@, bare_raw(id_list(i.dependencies))),
    ] + opt_line(
        i.epic_children.len() > 0,
        field_of("epic_children"@, bare_raw(id_list(i.epic_children))),
    ) + opt_line(i.points is Some, field_of("points"@, bare_raw(decimal(i.points->0 as nat))))
        + opt_line(i.due is Some, field_of("due"@, quoted_raw(i.due->0))) + seq![
        field_of("created_at"@, quoted_raw(i.created_at)),
    ] + seq![field_of("updated_at"@, quoted_raw(i.updated_at))]
}

proof fn lemma_kinds_split(i: IssueModel)
    ensures
        kinds(i) == head_kinds(i) + seq![opener(i)] + labels_block(i.labels) + tail_kinds(i),
        head_kinds(i).len() == 6,
        tail_kinds(i).len() >= 5,
        tail_kinds(i)[0] == field_of("assignee"@, assignee_raw(i.assignee)),
        tail_kinds(i).last() == field_of("updated_at"@, quoted_raw(i.updated_at)),
        head_kinds(i)[0] == field_of("id"@, bare_raw(decimal(i.id as nat))),
{
    assert(kinds(i) =~= head_kinds(i) + seq![opener(i)] + labels_block(i.labels) + tail_kinds(i));
}

proof fn lemma_raw_shapes(i: IssueModel)
    requires
        codec_domain(i),
    ensures
        raw_ok(bare_raw(decimal(i.id as nat))),
        raw_ok(quoted_raw(i.title)),
        raw_ok(quoted_raw(i.slug)),
        raw_ok(bare_raw(i.issue_type)),
        raw_ok(bare_raw(i.status)),
        raw_ok(bare_raw(i.priority)),
        raw_ok(labels_raw(i.labels)),
        raw_ok(assignee_raw(i.assignee)),
        i.milestone is Some ==> raw_ok(quoted_raw(i.milestone->0)),
        raw_ok(parent_raw(i.parent)),
        raw_ok(bare_raw(id_list(i.dependencies))),
        raw_ok(bare_raw(id_list(i.epic_children))),
        i.points is Some ==> raw_ok(bare_raw(decimal(i.points->0 as nat))),
        i.due is Some ==> raw_ok(quoted_raw(i.due->0)),
        raw_ok(quoted_raw(i.created_at)),
        raw_ok(quoted_raw(i.updated_at)),
{
    lemma_words();
    lemma_decimal_shape(i.id as nat);
    lemma_bare_raw_ok(decimal(i.id as nat));
    lemma_quoted_raw_ok(i.title);
    lemma_quoted_raw_ok(i.slug);
    lemma_bare_raw_ok(i.issue_type);
    lemma_bare_raw_ok(i.status);
    lemma_bare_raw_ok(i.priority);
    lemma_bare_raw_ok("[]"@);
    lemma_bare_raw_ok("null"@);
    if i.assignee is Some {
        lemma_quoted_raw_ok(i.assignee->0);
    }
    if i.milestone is Some {
        lemma_quoted_raw_ok(i.milestone->0);
    }
    if i.parent is Some {
        lemma_decimal_shape(i.parent->0 as nat);
        lemma_bare_raw_ok(decimal(i.parent->0 as nat));
    }
    lemma_id_list(i.dependencies);
    lemma_id_list(i.epic_children);
    if i.points is Some {
        lemma_decimal_shape(i.points->0 as nat);
        lemma_bare_raw_ok(decimal(i.points->0 as nat));
    }
    if i.due is Some {
        lemma_quoted_raw_ok(i.due->0);
    }
    lemma_quoted_raw_ok(i.created_at);
    lemma_quoted_raw_ok(i.updated_at);
}

proof fn lemma_bare_raw_ok(v: Seq<char>)
    requires
        is_bare(v),
    ensures
        raw_ok(bare_raw(v)),
{
    let r = bare_raw(v);
    assert forall|j: int| 0 <= j < r.len() implies r[j] != '\n' by {
        if j > 0 {
            assert(r[j] == v[j - 1]);
        }
    }
    if v.len() > 0 {
        assert(r.last() == v.last());
    }
}

proof fn lemma_quoted_raw_ok(x: Seq<char>)
    requires
        is_bare(x),
    ensures
        raw_ok(quoted_raw(x)),
{
    let r = quoted_raw(x);
    assert forall|j: int| 0 <= j < r.len() implies r[j] != '\n' by {
        if 2 <= j < 2 + x.len() {
            assert(r[j] == x[j - 2]);
        }
    }
    assert(r.last() == '"');
}

proof fn lemma_one_plain(key: Seq<char>, raw: Seq<char>)
    requires
        is_key(key),
        raw_ok(raw),
        key != "labels"@,
        key != "color"@,
    ensures
        plain_fields(seq![field_of(key, raw)]),
{
}

proof fn lemma_opt_plain(present: bool, key: Seq<char>, raw: Seq<char>)
    requires
        is_key(key),
        present ==> raw_ok(raw),
        key != "labels"@,
        key != "color"@,
    ensures
        plain_fields(opt_line(present, field_of(key, raw))),
{
}

proof fn lemma_kinds_shape(i: IssueModel)
    requires
        codec_domain(i),
    ensures
        plain_fields(head_kinds(i)),
        plain_fields(tail_kinds(i)),
        line_ok(opener(i)),
        lines_ok(kinds(i)),
        keyed(kinds(i)),
{
    lemma_keys();
    lemma_raw_shapes(i);
    let part1 = seq![field_of("id"@, bare_raw(decimal(i.id as nat)))];
    let part2 = seq![field_of("title"@, quoted_raw(i.title))];
    let part3 = seq![field_of("slug"@, quoted_raw(i.slug))];
    let part4 = seq![field_of("type"@, bare_raw(i.issue_type))];
    let part5 = seq![field_of("status"@, bare_raw(i.status))];
    let part6 = seq![field_of("priority"@, bare_raw(i.priority))];
    lemma_one_plain("id"@, bare_raw(decimal(i.id as nat)));
    lemma_one_plain("title"@, quoted_raw(i.title));
    lemma_one_plain("slug"@, quoted_raw(i.slug));
    lemma_one_plain("type"@, bare_raw(i.issue_type));
    lemma_one_plain("status"@, bare_raw(i.status));
    lemma_one_plain("priority"@, bare_raw(i.priority));
    lemma_plain_fields_concat(part1, part2);
    lemma_plain_fields_concat(part1 + part2, part3);
    lemma_plain_fields_concat(part1 + part2 + part3, part4);
    lemma_plain_fields_concat(part1 + part2 + part3 + part4, part5);
    lemma_plain_fields_concat(part1 + part2 + part3 + part4 + part5, part6);
    let t1 = seq![field_of("assignee"@, assignee_raw(i.assignee))];
    let t2 = opt_line(i.milestone is Some, field_of("milestone"@, quoted_raw(i.milestone->0)));
    let t3 = seq![field_of("parent"@, parent_raw(i.parent))];
    let t4 = seq![field_of("dependencies"@, bare_raw(id_list(i.dependencies)))];
    let t5 = opt_line(
        i.epic_children.len() > 0,
        field_of("epic_children"@, bare_raw(id_list(i.epic_children))),
    );
    let t6 = opt_line(i.points is Some, field_of("points"@, bare_raw(decimal(i.points->0 as nat))));
    let t7 = opt_line(i.due is Some, field_of("due"@, quoted_raw(i.due->0)));
    let t8 = seq![field_of("created_at"@, quoted_raw(i.created_at))];
    let t9 = seq![field_of("updated_at"@, quoted_raw(i.updated_at))];
    lemma_one_plain("assignee"@, assignee_raw(i.assignee));
    lemma_opt_plain(i.milestone is Some, "milestone"@, quoted_raw(i.milestone->0));
    lemma_one_plain("parent"@, parent_raw(i.parent));
    lemma_one_plain("dependencies"@, bare_raw(id_list(i.dependencies)));
    lemma_opt_plain(i.epic_children.len() > 0, "epic_children"@, bare_raw(id_list(i.epic_children)));
    lemma_opt_plain(i.points is Some, "points"@, bare_raw(decimal(i.points->0 as nat)));
    lemma_opt_plain(i.due is Some, "due"@, quoted_raw(i.due->0));
    lemma_one_plain("created_at"@, quoted_raw(i.created_at));
    lemma_one_plain("updated_at"@, quoted_raw(i.updated_at));
    lemma_plain_fields_concat(t1, t2);
    lemma_plain_fields_concat(t1 + t2, t3);
    lemma_plain_fields_concat(t1 + t2 + t3, t4);
    lemma_plain_fields_concat(t1 + t2 + t3 + t4, t5);
    lemma_plain_fields_concat(t1 + t2 + t3 + t4 + t5, t6);
    lemma_plain_fields_concat(t1 + t2 + t3 + t4 + t5 + t6, t7);
    lemma_plain_fields_concat(t1 + t2 + t3 + t4 + t5 + t6 + t7, t8);
    lemma_plain_fields_concat(t1 + t2 + t3 + t4 + t5 + t6 + t7 + t8, t9);
    lemma_kinds_split(i);
    lemma_labels_block_shape(i.labels);
    let h = head_kinds(i);
    let o = seq![opener(i)];
    let b = labels_block(i.labels);
    let t = tail_kinds(i);
    assert(lines_ok(h)) by {
        assert forall|x: int| 0 <= x < h.len() implies line_ok(#[trigger] h[x]) by {}
    }
    assert(lines_ok(t)) by {
        assert forall|x: int| 0 <= x < t.len() implies line_ok(#[trigger] t[x]) by {}
    }
    assert(lines_ok(o));
    lemma_lines_ok_concat(h, o);
    lemma_lines_ok_concat(h + o, b);
    lemma_lines_ok_concat(h + o + b, t);
}

proof fn lemma_render_head(i: IssueModel)
    requires
        codec_domain(i),
    ensures
        render_all(head_kinds(i)) == head_lines(i),
{
    lemma_escaped_id(i.title);
    lemma_render_plain("id"@, decimal(i.id as nat));
    lemma_render_quoted("title"@, i.title);
    lemma_render_quoted("slug"@, i.slug);
    lemma_render_plain("type"@, i.issue_type);
    lemma_render_plain("status"@, i.status);
    lemma_render_plain("priority"@, i.priority);
    assert(render_all(head_kinds(i)) =~= head_lines(i));
}

proof fn lemma_opener_text(labels: Seq<LabelModel>)
    ensures
        render(field_of("labels"@, labels_raw(labels))) == (if labels.len() == 0 {
            "labels: []"@
        } else {
            "labels:"@
        }),
{
    reveal_strlit("labels");
    reveal_strlit("labels:");
    reveal_strlit("labels: []");
    reveal_strlit("[]");
    if labels.len() == 0 {
        assert("labels"@ + seq![':'] + bare_raw("[]"@) =~= "labels: []"@);
    } else {
        assert("labels"@ + seq![':'] + Seq::<char>::empty() =~= "labels:"@);
    }
}

proof fn lemma_null_lines()
    ensures
        render(field_of("assignee"@, bare_raw("null"@))) == "assignee: null"@,
        render(field_of("parent"@, bare_raw("null"@))) == "parent: null"@,
{
    reveal_strlit("null");
    reveal_strlit("assignee");
    reveal_strlit("assignee: null");
    reveal_strlit("parent");
    reveal_strlit("parent: null");
    assert("assignee"@ + seq![':'] + bare_raw("null"@) =~= "assignee: null"@);
    assert("parent"@ + seq![':'] + bare_raw("null"@) =~= "parent: null"@);
}

proof fn lemma_render_mid(i: IssueModel)
    requires
        codec_domain(i),
    ensures
        render_all(seq![opener(i)] + labels_block(i.labels)) == label_lines(i.labels),
{
    let o = seq![opener(i)];
    let b = labels_block(i.labels);
    lemma_render_labels(i.labels);
    lemma_opener_text(i.labels);
    if i.labels.len() == 0 {
        assert(b =~= Seq::<Line>::empty());
    }
    lemma_render_concat(o, b);
    assert(render_all(o) =~= seq![render(opener(i))]);
    assert(render_all(o + b) =~= label_lines(i.labels));
}

proof fn lemma_render_tail_lines(i: IssueModel)
    requires
        codec_domain(i),
    ensures
        render(field_of("assignee"@, assignee_raw(i.assignee))) == assignee_line(i.assignee),
        i.milestone is Some ==> render(field_of("milestone"@, quoted_raw(i.milestone->0)))
            == quoted_line("milestone"@, escaped(i.milestone->0)),
        render(field_of("parent"@, parent_raw(i.parent))) == parent_line(i.parent),
        render(field_of("dependencies"@, bare_raw(id_list(i.dependencies)))) == plain_line(
            "dependencies"@,
            id_list(i.dependencies),
        ),
        render(field_of("epic_children"@, bare_raw(id_list(i.epic_children)))) == plain_line(
            "epic_children"@,
            id_list(i.epic_children),
        ),
        i.points is Some ==> render(field_of("points"@, bare_raw(decimal(i.points->0 as nat))))
            == plain_line("points"@, decimal(i.points->0 as nat)),
        i.due is Some ==> render(field_of("due"@, quoted_raw(i.due->0))) == quoted_line(
            "due"@,
            i.due->0,
        ),
        render(field_of("created_at"@, quoted_raw(i.created_at))) == quoted_line(
            "created_at"@,
            i.created_at,
        ),
        render(field_of("updated_at"@, quoted_raw(i.updated_at))) == quoted_line(
            "updated_at"@,
            i.updated_at,
        ),
{
    lemma_null_lines();
    if i.assignee is Some {
        lemma_escaped_id(i.assignee->0);
        lemma_render_quoted("assignee"@, i.assignee->0);
    }
    if i.milestone is Some {
        lemma_escaped_id(i.milestone->0);
        lemma_render_quoted("milestone"@, i.milestone->0);
    }
    if i.parent is Some {
        lemma_render_plain("parent"@, decimal(i.parent->0 as nat));
    }
    lemma_render_plain("dependencies"@, id_list(i.dependencies));
    lemma_render_plain("epic_children"@, id_list(i.epic_children));
    if i.points is Some {
        lemma_render_plain("points"@, decimal(i.points->0 as nat));
    }
    if i.due is Some {
        lemma_render_quoted("due"@, i.due->0);
    }
    lemma_render_quoted("created_at"@, i.created_at);
    lemma_render_quoted("updated_at"@, i.updated_at);
}

proof fn lemma_render_opt(present: bool, l: Line)
    ensures
        render_all(opt_line(present, l)) == line_if(present, render(l)),
{
    assert(render_all(opt_line(present, l)) =~= line_if(present, render(l)));
}

proof fn lemma_render_one(l: Line)
    ensures
        render_all(seq![l]) == seq![render(l)],
{
    assert(render_all(seq![l]) =~= seq![render(l)]);
}

proof fn lemma_append_two(x: Seq<Seq<char>>, a: Seq<char>, b: Seq<char>)
    ensures
        x + seq![a] + seq![b] == x + seq![a, b],
{
    assert(x + seq![a] + seq![b] =~= x + seq![a, b]);
}

proof fn lemma_render_tail_front(i: IssueModel)
    requires
        codec_domain(i),
    ensures
        render_all(
            seq![field_of("assignee"@, assignee_raw(i.assignee))] + opt_line(
                i.milestone is Some,
                field_of("milestone"@, quoted_raw(i.milestone->0)),
            ) + seq![field_of("parent"@, parent_raw(i.parent))] + seq![
                field_of("dependencies"@, bare_raw(id_list(i.dependencies))),
            ],
        ) == seq![assignee_line(i.assignee)] + line_if(
            i.milestone is Some,
            quoted_line("milestone"@, escaped(i.milestone->0)),
        ) + seq![parent_line(i.parent), plain_line("dependencies"@, id_list(i.dependencies))],
{
    lemma_render_tail_lines(i);
    let l1 = field_of("assignee"@, assignee_raw(i.assignee));
    let l2 = field_of("milestone"@, quoted_raw(i.milestone->0));
    let l3 = field_of("parent"@, parent_raw(i.parent));
    let l4 = field_of("dependencies"@, bare_raw(id_list(i.dependencies)));
    let t1 = seq![l1];
    let t2 = opt_line(i.milestone is Some, l2);
    let t3 = seq![l3];
    let t4 = seq![l4];
    lemma_render_one(l1);
    lemma_render_opt(i.milestone is Some, l2);
    lemma_render_one(l3);
    lemma_render_one(l4);
    lemma_render_concat(t1, t2);
    lemma_render_concat(t1 + t2, t3);
    lemma_render_concat(t1 + t2 + t3, t4);
    lemma_append_two(render_all(t1 + t2), render(l3), render(l4));
}

proof fn lemma_render_tail(i: IssueModel)
    requires
        codec_domain(i),
    ensures
        render_all(tail_kinds(i)) == tail_lines(i),
{
    lemma_render_tail_lines(i);
    lemma_render_tail_front(i);
    let l5 = field_of("epic_children"@, bare_raw(id_list(i.epic_children)));
    let l6 = field_of("points"@, bare_raw(decimal(i.points->0 as nat)));
    let l7 = field_of("due"@, quoted_raw(i.due->0));
    let l8 = field_of("created_at"@, quoted_raw(i.created_at));
    let l9 = field_of("updated_at"@, quoted_raw(i.updated_at));
    let f = seq![field_of("assignee"@, assignee_raw(i.assignee))] + opt_line(
        i.milestone is Some,
        field_of("milestone"@, quoted_raw(i.milestone->0)),
    ) + seq![field_of("parent"@, parent_raw(i.parent))] + seq![
        field_of("dependencies"@, bare_raw(id_list(i.dependencies))),
    ];
    let t5 = opt_line(i.epic_children.len() > 0, l5);
    let t6 = opt_line(i.points is Some, l6);
    let t7 = opt_line(i.due is Some, l7);
    let t8 = seq![l8];
    let t9 = seq![l9];
    lemma_render_opt(i.epic_children.len() > 0, l5);
    lemma_render_opt(i.points is Some, l6);
    lemma_render_opt(i.due is Some, l7);
    lemma_render_one(l8);
    lemma_render_one(l9);
    lemma_render_concat(f, t5);
    lemma_render_concat(f + t5, t6);
    lemma_render_concat(f + t5 + t6, t7);
    lemma_render_concat(f + t5 + t6 + t7, t8);
    lemma_render_concat(f + t5 + t6 + t7 + t8, t9);
    lemma_append_two(render_all(f + t5 + t6 + t7), render(l8), render(l9));
    assert(tail_kinds(i) == f + t5 + t6 + t7 + t8 + t9);
}

proof fn lemma_kinds_render(i: IssueModel)
    requires
        codec_domain(i),
    ensures
        render_all(kinds(i)) == front_lines(i),
{
    lemma_kinds_split(i);
    lemma_render_head(i);
    lemma_render_mid(i);
    lemma_render_tail(i);
    let h = head_kinds(i);
    let ob = seq![opener(i)] + labels_block(i.labels);
    let t = tail_kinds(i);
    lemma_render_concat(h, ob);
    lemma_render_concat(h + ob, t);
    assert(kinds(i) =~= h + ob + t);
}

proof fn lemma_kinds_quiet(i: IssueModel)
    requires
        codec_domain(i),
    ensures
        quiet(kinds(i)),
{
    lemma_kinds_shape(i);
    lemma_kinds_split(i);
    lemma_labels_block_shape(i.labels);
    lemma_words();
    let h = head_kinds(i);
    let o = seq![opener(i)];
    let b = labels_block(i.labels);
    let t = tail_kinds(i);
    let e = Seq::<Line>::empty();
    lemma_quiet_fields(e, h);
    assert(e + h =~= h);
    lemma_quiet_fields(h, o);
    assert((h + o).last() == opener(i));
    if i.labels.len() == 0 {
        assert(b =~= e);
        assert(h + o + b =~= h + o);
    } else {
        lemma_quiet_entries(h + o, b);
    }
    lemma_quiet_fields(h + o + b, t);
}

/// The value that the map of the scanner holds under a key, after the lines
/// of the frontmatter of an issue.
proof fn lemma_value(i: IssueModel, k: Seq<char>)
    requires
        codec_domain(i),
    ensures
        field(flushed(state_after(kinds(i))), k) == (if kinds_raws(i, k).len() > 0 {
            Some(clean(clean(kinds_raws(i, k).last())))
        } else {
            None
        }),
        first_raw(kinds(i), k) == (if kinds_raws(i, k).len() > 0 {
            Some(kinds_raws(i, k)[0])
        } else {
            None
        }),
{
    lemma_kinds_shape(i);
    lemma_lookup(kinds(i), k);
    lemma_last_field_is(kinds(i), k);
    lemma_first_raw_is(kinds(i), k);
    lemma_kinds_raws(i, k);
}

proof fn lemma_raws_title(i: IssueModel)
    ensures
        kinds_raws(i, "title"@) == seq![quoted_raw(i.title)],
{
    lemma_keys();
    assert(kinds_raws(i, "title"@) =~= seq![quoted_raw(i.title)]);
}

proof fn lemma_raws_slug(i: IssueModel)
    ensures
        kinds_raws(i, "slug"@) == seq![quoted_raw(i.slug)],
{
    lemma_keys();
    assert(kinds_raws(i, "slug"@) =~= seq![quoted_raw(i.slug)]);
}

proof fn lemma_raws_type(i: IssueModel)
    ensures
        kinds_raws(i, "type"@) == seq![bare_raw(i.issue_type)],
{
    lemma_keys();
    assert(kinds_raws(i, "type"@) =~= seq![bare_raw(i.issue_type)]);
}

proof fn lemma_raws_status(i: IssueModel)
    ensures
        kinds_raws(i, "status"@) == seq![bare_raw(i.status)],
{
    lemma_keys();
    assert(kinds_raws(i, "status"@) =~= seq![bare_raw(i.status)]);
}

proof fn lemma_raws_priority(i: IssueModel)
    ensures
        kinds_raws(i, "priority"@) == seq![bare_raw(i.priority)],
{
    lemma_keys();
    assert(kinds_raws(i, "priority"@) =~= seq![bare_raw(i.priority)]);
}

proof fn lemma_raws_assignee(i: IssueModel)
    ensures
        kinds_raws(i, "assignee"@) == seq![assignee_raw(i.assignee)],
{
    lemma_keys();
    assert(kinds_raws(i, "assignee"@) =~= seq![assignee_raw(i.assignee)]);
}

proof fn lemma_raws_milestone(i: IssueModel)
    ensures
        kinds_raws(i, "milestone"@) == (if i.milestone is Some {
            seq![quoted_raw(i.milestone->0)]
        } else {
            Seq::<Seq<char>>::empty()
        }),
{
    lemma_keys();
    if i.milestone is Some {
        assert(kinds_raws(i, "milestone"@) =~= seq![quoted_raw(i.milestone->0)]);
    } else {
        assert(kinds_raws(i, "milestone"@) =~= Seq::<Seq<char>>::empty());
    }
}

proof fn lemma_raws_parent(i: IssueModel)
    ensures
        kinds_raws(i, "parent"@) == seq![parent_raw(i.parent)],
{
    lemma_keys();
    assert(kinds_raws(i, "parent"@) =~= seq![parent_raw(i.parent)]);
}

proof fn lemma_raws_dependencies(i: IssueModel)
    ensures
        kinds_raws(i, "dependencies"@) == seq![bare_raw(id_list(i.dependencies))],
{
    lemma_keys();
    assert(kinds_raws(i, "dependencies"@) =~= seq![bare_raw(id_list(i.dependencies))]);
}

proof fn lemma_raws_epic_children(i: IssueModel)
    ensures
        kinds_raws(i, "epic_children"@) == (if i.epic_children.len() > 0 {
            seq![bare_raw(id_list(i.epic_children))]
        } else {
            Seq::<Seq<char>>::empty()
        }),
{
    lemma_keys();
    if i.epic_children.len() > 0 {
        assert(kinds_raws(i, "epic_children"@) =~= seq![bare_raw(id_list(i.epic_children))]);
    } else {
        assert(kinds_raws(i, "epic_children"@) =~= Seq::<Seq<char>>::empty());
    }
}

proof fn lemma_raws_points(i: IssueModel)
    ensures
        kinds_raws(i, "points"@) == (if i.points is Some {
            seq![bare_raw(decimal(i.points->0 as nat))]
        } else {
            Seq::<Seq<char>>::empty()
        }),
{
    lemma_keys();
    if i.points is Some {
        assert(kinds_raws(i, "points"@) =~= seq![bare_raw(decimal(i.points->0 as nat))]);
    } else {
        assert(kinds_raws(i, "points"@) =~= Seq::<Seq<char>>::empty());
    }
}

proof fn lemma_raws_due(i: IssueModel)
    ensures
        kinds_raws(i, "due"@) == (if i.due is Some {
            seq![quoted_raw(i.due->0)]
        } else {
            Seq::<Seq<char>>::empty()
        }),
{
    lemma_keys();
    if i.due is Some {
        assert(kinds_raws(i, "due"@) =~= seq![quoted_raw(i.due->0)]);
    } else {
        assert(kinds_raws(i, "due"@) =~= Seq::<Seq<char>>::empty());
    }
}

proof fn lemma_raws_created_at(i: IssueModel)
    ensures
        kinds_raws(i, "created_at"@) == seq![quoted_raw(i.created_at)],
{
    lemma_keys();
    assert(kinds_raws(i, "created_at"@) =~= seq![quoted_raw(i.created_at)]);
}

proof fn lemma_raws_updated_at(i: IssueModel)
    ensures
        kinds_raws(i, "updated_at"@) == seq![quoted_raw(i.updated_at)],
{
    lemma_keys();
    assert(kinds_raws(i, "updated_at"@) =~= seq![quoted_raw(i.updated_at)]);
}

proof fn lemma_text_values(i: IssueModel)
    requires
        codec_domain(i),
    ensures
        ({
            let m = flushed(state_after(kinds(i)));
            &&& field(m, "title"@) == Some(i.title)
            &&& field(m, "slug"@) == Some(i.slug)
            &&& field(m, "type"@) == Some(i.issue_type)
            &&& field(m, "status"@) == Some(i.status)
            &&& field(m, "priority"@) == Some(i.priority)
            &&& field(m, "created_at"@) == Some(i.created_at)
            &&& field(m, "updated_at"@) == Some(i.updated_at)
        }),
{
    lemma_clean_quoted(i.title);
    lemma_clean_quoted(i.slug);
    lemma_clean_bare(i.issue_type);
    lemma_clean_bare(i.status);
    lemma_clean_bare(i.priority);
    lemma_clean_quoted(i.created_at);
    lemma_clean_quoted(i.updated_at);
    lemma_value(i, "title"@);
    lemma_raws_title(i);
    lemma_value(i, "slug"@);
    lemma_raws_slug(i);
    lemma_value(i, "type"@);
    lemma_raws_type(i);
    lemma_value(i, "status"@);
    lemma_raws_status(i);
    lemma_value(i, "priority"@);
    lemma_raws_priority(i);
    lemma_value(i, "created_at"@);
    lemma_raws_created_at(i);
    lemma_value(i, "updated_at"@);
    lemma_raws_updated_at(i);
}

proof fn lemma_assignee_value(i: IssueModel)
    requires
        codec_domain(i),
    ensures
        assignee_of(field(flushed(state_after(kinds(i))), "assignee"@)) == i.assignee,
{
    lemma_words();
    lemma_clean_bare("null"@);
    lemma_value(i, "assignee"@);
    lemma_raws_assignee(i);
    if i.assignee is Some {
        lemma_clean_quoted(i.assignee->0);
    }
}

proof fn lemma_milestone_value(i: IssueModel)
    requires
        codec_domain(i),
    ensures
        non_empty(field(flushed(state_after(kinds(i))), "milestone"@)) == i.milestone,
{
    lemma_value(i, "milestone"@);
    lemma_raws_milestone(i);
    if i.milestone is Some {
        lemma_clean_quoted(i.milestone->0);
    }
}

proof fn lemma_parent_value(i: IssueModel)
    requires
        codec_domain(i),
    ensures
        number_of(field(flushed(state_after(kinds(i))), "parent"@)) == i.parent,
{
    lemma_words();
    lemma_clean_bare("null"@);
    lemma_value(i, "parent"@);
    lemma_raws_parent(i);
    if i.parent is Some {
        lemma_decimal_shape(i.parent->0 as nat);
        lemma_clean_bare(decimal(i.parent->0 as nat));
        lemma_parse_decimal(i.parent->0);
    }
}

proof fn lemma_points_value(i: IssueModel)
    requires
        codec_domain(i),
    ensures
        number_of(field(flushed(state_after(kinds(i))), "points"@)) == i.points,
{
    lemma_value(i, "points"@);
    lemma_raws_points(i);
    if i.points is Some {
        lemma_decimal_shape(i.points->0 as nat);
        lemma_clean_bare(decimal(i.points->0 as nat));
        lemma_parse_decimal(i.points->0);
    }
}

proof fn lemma_due_value(i: IssueModel)
    requires
        codec_domain(i),
    ensures
        non_empty(field(flushed(state_after(kinds(i))), "due"@)) == i.due,
{
    lemma_value(i, "due"@);
    lemma_raws_due(i);
    if i.due is Some {
        lemma_clean_quoted(i.due->0);
    }
}

proof fn lemma_numbers_read(i: IssueModel)
    requires
        codec_domain(i),
    ensures
        numbers_from(render_all(kinds(i)), "dependencies"@, 0) == i.dependencies,
        numbers_from(render_all(kinds(i)), "epic_children"@, 0) == i.epic_children,
{
    lemma_keys();
    lemma_kinds_shape(i);
    let ks = kinds(i);
    assert(ks.skip(0) =~= ks);
    lemma_numbers_agree(ks, "dependencies"@, 0);
    lemma_numbers_agree(ks, "epic_children"@, 0);
    lemma_value(i, "dependencies"@);
    lemma_raws_dependencies(i);
    lemma_id_list(i.dependencies);
    lemma_value(i, "epic_children"@);
    lemma_raws_epic_children(i);
    if i.epic_children.len() > 0 {
        lemma_id_list(i.epic_children);
    } else {
        assert(i.epic_children =~= Seq::<u32>::empty());
    }
}

proof fn lemma_labels_read(i: IssueModel)
    requires
        codec_domain(i),
    ensures
        labels_from(render_all(kinds(i)), 0, false, 0) == i.labels,
{
    lemma_keys();
    lemma_literals();
    lemma_words();
    lemma_kinds_shape(i);
    lemma_kinds_split(i);
    lemma_labels_block_shape(i.labels);
    let ks = kinds(i);
    let r = render_all(ks);
    let h = head_kinds(i);
    let b = labels_block(i.labels);
    let t = tail_kinds(i);
    let end: int = 7 + b.len() as int;
    assert forall|x: int| 0 <= x < 6 implies (#[trigger] ks[x]) is Field && ks[x]->key != "labels"@ by {
        assert(ks[x] == h[x]);
    }
    lemma_skip_fields(ks, 0, 6, false);
    assert(ks[6] == opener(i));
    assert(r[6] == render(opener(i)));
    assert("labels"@ + seq![':'] =~= "labels:"@);
    lemma_field_opens("labels"@, labels_raw(i.labels), "labels"@);
    lemma_split_once_at("labels"@, ':', labels_raw(i.labels));
    if i.labels.len() == 0 {
        reveal_strlit("[]");
        lemma_clean_bare("[]"@);
        lemma_strip_wrapped(seq![' '], "[]"@, Seq::empty(), CharClass::Whitespace);
        assert(seq![' '] + "[]"@ + Seq::<char>::empty() =~= bare_raw("[]"@));
        let inner = "[]"@.subrange(1, 1);
        assert(inner =~= Seq::<char>::empty());
        lemma_index_of_absent(inner, ',');
        let one = seq![inner];
        assert(split(inner, ',') == one);
        assert(one.drop_last() =~= Seq::<Seq<char>>::empty());
        assert(flow_names(one.drop_last()) =~= Seq::<Seq<char>>::empty());
        assert(flow_names(one) =~= Seq::<Seq<char>>::empty());
        assert(flow_items(r[6]) =~= Seq::<Seq<char>>::empty());
    } else {
        lemma_strip_id(Seq::<char>::empty(), CharClass::Whitespace);
        assert(flow_items(r[6]) =~= Seq::<Seq<char>>::empty());
    }
    assert(plain_labels(flow_items(r[6])) =~= Seq::<LabelModel>::empty());
    assert(labels_from(r, 6, false, 0) =~= labels_from(r, 7, true, 0));
    assert(ks.subrange(7, end) =~= b);
    assert(ks[end] == t[0]);
    lemma_walk_labels(ks, 7, i.labels);
    assert forall|x: int| end <= x < ks.len() implies (#[trigger] ks[x]) is Field && ks[x]->key
        != "labels"@ by {
        assert(ks[x] == t[x - end]);
    }
    lemma_skip_fields(ks, end, ks.len() as int, true);
    assert(labels_from(r, ks.len() as int, false, 0) =~= Seq::<LabelModel>::empty());
    assert(i.labels + Seq::<LabelModel>::empty() =~= i.labels);
}

proof fn lemma_unlines_join(ls: Seq<Seq<char>>)
    requires
        ls.len() > 0,
    ensures
        unlines(ls) == join(ls, seq!['\n']) + seq!['\n'],
    decreases ls.len(),
{
    if ls.len() == 1 {
        assert(ls.drop_last() =~= Seq::<Seq<char>>::empty());
        assert(unlines(ls.drop_last()) =~= Seq::<char>::empty());
        assert(unlines(ls) =~= join(ls, seq!['\n']) + seq!['\n']);
    } else {
        lemma_unlines_join(ls.drop_last());
        assert(unlines(ls) =~= join(ls, seq!['\n']) + seq!['\n']);
    }
}

/// No newline of the text has a `-` after it.
pub open spec fn no_marker(j: Seq<char>) -> bool {
    forall|q: int| 0 <= q < j.len() - 1 && (#[trigger] j[q]) == '\n' ==> j[q + 1] != '-'
}

proof fn lemma_join_shape(ls: Seq<Seq<char>>)
    requires
        ls.len() > 0,
        forall|t: int|
            0 <= t < ls.len() ==> (#[trigger] ls[t]).len() > 0 && ls[t][0] != '-' && no_char(
                ls[t],
                '\n',
            ),
    ensures
        join(ls, seq!['\n']).len() > 0,
        join(ls, seq!['\n'])[0] == ls[0][0],
        join(ls, seq!['\n']).last() == ls.last().last(),
        no_marker(join(ls, seq!['\n'])),
    decreases ls.len(),
{
    let j = join(ls, seq!['\n']);
    if ls.len() > 1 {
        let init = ls.drop_last();
        assert forall|t: int| 0 <= t < init.len() implies (#[trigger] init[t]).len() > 0
            && init[t][0] != '-' && no_char(init[t], '\n') by {
            assert(init[t] == ls[t]);
        }
        lemma_join_shape(init);
        let a = join(init, seq!['\n']);
        let last = ls.last();
        assert(last == ls[ls.len() - 1]);
        assert(j =~= a + seq!['\n'] + last);
        assert(j[0] == a[0]);
        assert(init[0] == ls[0]);
        assert forall|q: int| 0 <= q < j.len() - 1 && (#[trigger] j[q]) == '\n' implies j[q + 1]
            != '-' by {
            if q < a.len() - 1 {
                assert(j[q] == a[q]);
                assert(j[q + 1] == a[q + 1]);
            } else if q == a.len() - 1 {
                assert(j[q + 1] == '\n');
            } else if q == a.len() {
                assert(j[q + 1] == last[0]);
            } else {
                assert(j[q] == last[q - a.len() - 1]);
            }
        }
    } else {
        assert(ls.last() == ls[0]);
    }
}

/// The text of a file whose frontmatter `j` holds no marker and has no
/// whitespace at its ends splits into that frontmatter and what follows the
/// closing marker and one newline.
proof fn lemma_split_text(j: Seq<char>, b: Seq<char>)
    requires
        j.len() > 0,
        no_marker(j),
        clear_of(j, CharClass::Whitespace),
    ensures
        split_frontmatter_text("---\n"@ + (j + seq!['\n']) + "---\n\n"@ + b) == Some(
            (j, seq!['\n'] + b),
        ),
{
    reveal_strlit("---\n");
    reveal_strlit("\n---");
    reveal_strlit("---\n\n");
    let s = "---\n"@ + (j + seq!['\n']) + "---\n\n"@ + b;
    let pat = "\n---"@;
    assert(s.subrange(0, 4) =~= "---\n"@);
    let rest = s.skip(4);
    assert(rest =~= j + seq!['\n'] + "---\n\n"@ + b);
    let p = j.len() as int;
    assert(rest.subrange(p, p + 4) =~= pat);
    assert forall|q: int| 0 <= q < p implies !occurs_at(rest, pat, q) by {
        if occurs_at(rest, pat, q) {
            let w = rest.subrange(q, q + 4);
            assert(w[0] == rest[q]);
            assert(w[1] == rest[q + 1]);
            assert(rest[q] == j[q]);
            if q + 1 < p {
                assert(rest[q + 1] == j[q + 1]);
            }
        }
    }
    lemma_find_is(rest, pat, p);
    assert(rest.take(p) =~= j);
    lemma_trim_id(j);
    let after = rest.skip(p + 4);
    assert(after =~= seq!['\n', '\n'] + b);
    assert(after.skip(1) =~= seq!['\n'] + b);
}

proof fn lemma_front_shape(i: IssueModel)
    requires
        codec_domain(i),
    ensures
        front_lines(i).len() > 0,
        clean_lines(front_lines(i)),
        forall|t: int|
            0 <= t < front_lines(i).len() ==> (#[trigger] front_lines(i)[t]).len() > 0
                && front_lines(i)[t][0] != '-' && no_char(front_lines(i)[t], '\n'),
        !is_whitespace(front_lines(i)[0][0]),
        front_lines(i).last().last() == '"',
{
    lemma_kinds_render(i);
    lemma_kinds_shape(i);
    lemma_kinds_split(i);
    let ks = kinds(i);
    let ls = front_lines(i);
    assert(ls.len() == ks.len());
    assert forall|t: int| 0 <= t < ls.len() implies (#[trigger] ls[t]).len() > 0 && ls[t][0] != '-'
        && no_char(ls[t], '\n') && ls[t].last() != '\r' by {
        assert(ls[t] == render(ks[t]));
        assert(line_ok(ks[t]));
        lemma_line_shape(ks[t]);
    }
    assert(ks[0] == head_kinds(i)[0]);
    assert(ls[0] == render(ks[0]));
    lemma_line_shape(ks[0]);
    assert(ks[ks.len() - 1] == tail_kinds(i).last());
    assert(ls.last() == render(ks[ks.len() - 1]));
    let x = quoted_raw(i.updated_at);
    assert(x.last() == '"');
    assert(render(field_of("updated_at"@, x)).last() == x.last());
}

proof fn lemma_split(i: IssueModel)
    requires
        codec_domain(i),
    ensures
        split_frontmatter_text(serialized(i)) == Some(
            (
                join(front_lines(i), seq!['\n']),
                seq!['\n'] + i.body + closing_newline(i.body),
            ),
        ),
        lines(join(front_lines(i), seq!['\n'])) == front_lines(i),
{
    lemma_front_shape(i);
    let ls = front_lines(i);
    lemma_join_shape(ls);
    lemma_unlines_join(ls);
    lemma_lines_of_join(ls);
    let j = join(ls, seq!['\n']);
    let b = i.body + closing_newline(i.body);
    lemma_split_text(j, b);
    assert(serialized(i) =~= "---\n"@ + (j + seq!['\n']) + "---\n\n"@ + b);
    assert(seq!['\n'] + b =~= seq!['\n'] + i.body + closing_newline(i.body));
}

/// Round trip: for a record built from values that the codec reads back as
/// they are, parsing its freshly serialized form gives the record back,
/// field by field.
pub proof fn lemma_round_trip(i: IssueModel)
    requires
        codec_domain(i),
    ensures
        parsed(serialized(i), i.id) == Some(i),
{
    lemma_split(i);
    lemma_kinds_render(i);
    lemma_kinds_shape(i);
    lemma_kinds_quiet(i);
    lemma_scan_agrees(kinds(i));
    lemma_text_values(i);
    lemma_assignee_value(i);
    lemma_milestone_value(i);
    lemma_parent_value(i);
    lemma_points_value(i);
    lemma_due_value(i);
    lemma_numbers_read(i);
    lemma_labels_read(i);
    let fm = join(front_lines(i), seq!['\n']);
    let raw_body = seq!['\n'] + i.body + closing_newline(i.body);
    assert(scalars(fm) == flushed(state_after(kinds(i))));
    assert(labels_of(fm) == i.labels);
    assert(numbers_of(fm, "dependencies"@) == i.dependencies);
    assert(numbers_of(fm, "epic_children"@) == i.epic_children);
    lemma_strip_wrapped(seq!['\n'], i.body, closing_newline(i.body), CharClass::Whitespace);
    assert(trim(raw_body) == i.body);
    let got = parsed(serialized(i), i.id)->0;
    assert(got.title == i.title);
    assert(got.slug == i.slug);
    assert(got.created_at == i.created_at);
    assert(got.updated_at == i.updated_at);
    assert(got == i);
}

} // verus!
