//! Facts about the text primitives that the laws of the document model rest on.

use vstd::prelude::*;
use crate::text::{
    CharClass, find, find_from, first_word, index_of, is_whitespace, join, lemma_find_from,
    lemma_rspan_is, lemma_span_is, lines, occurs_at, split_once, strip, strip_cr, strip_end,
    strip_start, trim, trim_start,
};

verus! {

/// No character of `s` is `c`.
pub open spec fn no_char(s: Seq<char>, c: char) -> bool {
    forall|i: int| 0 <= i < s.len() ==> s[i] != c
}

/// No character of `s` is whitespace.
pub open spec fn no_whitespace(s: Seq<char>) -> bool {
    forall|i: int| 0 <= i < s.len() ==> !is_whitespace(#[trigger] s[i])
}

/// `s` is empty, or neither begins nor ends with a character of `k`.
pub open spec fn clear_of(s: Seq<char>, k: CharClass) -> bool {
    s.len() == 0 || (!k.has(s[0]) && !k.has(s.last()))
}

/// Stripping a text that is clear of a class changes nothing.
pub proof fn lemma_strip_id(s: Seq<char>, k: CharClass)
    requires
        clear_of(s, k),
    ensures
        strip(s, k) == s,
        strip_start(s, k) == s,
        strip_end(s, k) == s,
{
    lemma_span_is(s, k, 0);
    assert(s.skip(0) =~= s);
    lemma_rspan_is(s, k, 0);
    assert(s.take(s.len() as int) =~= s);
}

/// Stripping takes away what stands around a text that is clear of the
/// class, where all of that lies in the class.
pub proof fn lemma_strip_wrapped(pre: Seq<char>, x: Seq<char>, post: Seq<char>, k: CharClass)
    requires
        forall|i: int| 0 <= i < pre.len() ==> k.has(#[trigger] pre[i]),
        forall|i: int| 0 <= i < post.len() ==> k.has(#[trigger] post[i]),
        clear_of(x, k),
    ensures
        strip(pre + x + post, k) == x,
        strip_start(pre + x, k) == x,
{
    let s = pre + x + post;
    if x.len() == 0 {
        assert forall|j: int| 0 <= j < s.len() implies k.has(#[trigger] s[j]) by {
            if j < pre.len() {
                assert(s[j] == pre[j]);
            } else {
                assert(s[j] == post[j - pre.len()]);
            }
        }
        lemma_span_is(s, k, s.len() as int);
        assert(s.skip(s.len() as int) =~= Seq::<char>::empty());
        lemma_rspan_is(Seq::<char>::empty(), k, 0);
        assert(Seq::<char>::empty().take(0) =~= x);
        assert(pre + x =~= pre);
        lemma_span_is(pre, k, pre.len() as int);
        assert(pre.skip(pre.len() as int) =~= x);
    } else {
        assert forall|j: int| 0 <= j < pre.len() implies k.has(#[trigger] s[j]) by {
            assert(s[j] == pre[j]);
        }
        assert(s[pre.len() as int] == x[0]);
        lemma_span_is(s, k, pre.len() as int);
        let t = s.skip(pre.len() as int);
        assert(t =~= x + post);
        assert forall|j: int| t.len() - post.len() <= j < t.len() implies k.has(#[trigger] t[j]) by {
            assert(t[j] == post[j - x.len()]);
        }
        assert(t[t.len() - post.len() - 1] == x.last());
        lemma_rspan_is(t, k, post.len() as int);
        assert(t.take(t.len() - post.len()) =~= x);
        let u = pre + x;
        assert forall|j: int| 0 <= j < pre.len() implies k.has(#[trigger] u[j]) by {
            assert(u[j] == pre[j]);
        }
        assert(u[pre.len() as int] == x[0]);
        lemma_span_is(u, k, pre.len() as int);
        assert(u.skip(pre.len() as int) =~= x);
    }
}

/// The text before the first `c` of `head + [c] + tail`, where `head` has
/// no `c`, is `head`.
pub proof fn lemma_split_once_at(head: Seq<char>, c: char, tail: Seq<char>)
    requires
        no_char(head, c),
    ensures
        index_of(head + seq![c] + tail, c) == head.len(),
        split_once(head + seq![c] + tail, c) == Some((head, tail)),
{
    let s = head + seq![c] + tail;
    assert forall|j: int| 0 <= j < head.len() implies CharClass::Except(c).has(#[trigger] s[j]) by {
        assert(s[j] == head[j]);
    }
    assert(s[head.len() as int] == c);
    lemma_span_is(s, CharClass::Except(c), head.len() as int);
    assert(s.take(head.len() as int) =~= head);
    assert(s.skip(head.len() as int + 1) =~= tail);
}

/// A text without `c` is not split at `c`.
pub proof fn lemma_index_of_absent(s: Seq<char>, c: char)
    requires
        no_char(s, c),
    ensures
        index_of(s, c) == s.len(),
{
    lemma_span_is(s, CharClass::Except(c), s.len() as int);
}

/// The first occurrence of a pattern is at `p` where it stands there and
/// nowhere before.
pub proof fn lemma_find_is(s: Seq<char>, pat: Seq<char>, p: int)
    requires
        occurs_at(s, pat, p),
        forall|q: int| 0 <= q < p ==> !occurs_at(s, pat, q),
    ensures
        find(s, pat) == Some(p),
{
    lemma_find_from(s, pat, 0);
}

/// A text without whitespace, put after whitespace, is the first word.
pub proof fn lemma_first_word(pre: Seq<char>, w: Seq<char>)
    requires
        forall|i: int| 0 <= i < pre.len() ==> is_whitespace(#[trigger] pre[i]),
        no_whitespace(w),
        w.len() > 0,
    ensures
        first_word(pre + w) == Some(w),
{
    let s = pre + w;
    assert forall|j: int| 0 <= j < pre.len() implies CharClass::Whitespace.has(#[trigger] s[j]) by {
        assert(s[j] == pre[j]);
    }
    assert(s[pre.len() as int] == w[0]);
    lemma_span_is(s, CharClass::Whitespace, pre.len() as int);
    let t = trim_start(s);
    assert(t =~= w);
    lemma_span_is(w, CharClass::NonWhitespace, w.len() as int);
    assert(w.take(w.len() as int) =~= w);
}

/// The lines of a text without a newline: the text itself, where it is not empty.
pub proof fn lemma_lines_single(x: Seq<char>)
    requires
        no_char(x, '\n'),
        x.len() > 0,
    ensures
        lines(x) == seq![x],
{
    lemma_index_of_absent(x, '\n');
}

/// The lines of a line, a newline and more text: the line, then the lines
/// of the rest.
pub proof fn lemma_lines_cons(x: Seq<char>, rest: Seq<char>)
    requires
        no_char(x, '\n'),
        x.len() == 0 || x.last() != '\r',
    ensures
        lines(x + seq!['\n'] + rest) == seq![x] + lines(rest),
{
    lemma_split_once_at(x, '\n', rest);
    let s = x + seq!['\n'] + rest;
    assert(s.take(x.len() as int) =~= x);
    assert(s.skip(x.len() as int + 1) =~= rest);
    assert(strip_cr(x) == x);
}

/// Every line has no newline in it and does not end in a carriage return.
pub open spec fn clean_lines(ls: Seq<Seq<char>>) -> bool {
    forall|i: int|
        0 <= i < ls.len() ==> no_char(#[trigger] ls[i], '\n') && (ls[i].len() == 0 || ls[i].last()
            != '\r')
}

/// Joining by newlines, said from the front: the first line, a newline, and
/// the rest joined.
pub proof fn lemma_join_front(ls: Seq<Seq<char>>, sep: Seq<char>)
    requires
        ls.len() >= 2,
    ensures
        join(ls, sep) == ls[0] + sep + join(ls.drop_first(), sep),
    decreases ls.len(),
{
    if ls.len() == 2 {
        assert(ls.drop_last() =~= seq![ls[0]]);
        assert(ls.drop_first() =~= seq![ls[1]]);
        assert(join(ls.drop_last(), sep) == ls[0]);
        assert(join(ls.drop_first(), sep) == ls[1]);
    } else {
        let init = ls.drop_last();
        lemma_join_front(init, sep);
        assert(init.drop_first() =~= ls.drop_first().drop_last());
        assert(ls.drop_first().last() == ls.last());
        assert(join(ls, sep) =~= ls[0] + sep + join(ls.drop_first(), sep));
    }
}

/// Splitting into lines undoes joining by newlines, for lines that hold no
/// newline and end in no carriage return, the last of them not empty.
pub proof fn lemma_lines_of_join(ls: Seq<Seq<char>>)
    requires
        clean_lines(ls),
        ls.len() > 0,
        ls.last().len() > 0,
    ensures
        lines(join(ls, seq!['\n'])) == ls,
    decreases ls.len(),
{
    if ls.len() == 1 {
        lemma_lines_single(ls[0]);
        assert(ls =~= seq![ls[0]]);
    } else {
        lemma_join_front(ls, seq!['\n']);
        let rest = ls.drop_first();
        assert forall|i: int| 0 <= i < rest.len() implies no_char(#[trigger] rest[i], '\n') && (
        rest[i].len() == 0 || rest[i].last() != '\r') by {
            assert(rest[i] == ls[i + 1]);
        }
        lemma_lines_of_join(rest);
        lemma_lines_cons(ls[0], join(rest, seq!['\n']));
        assert(seq![ls[0]] + rest =~= ls);
    }
}

/// A text that begins and ends with other characters than whitespace is
/// its own trimmed form, and so is the empty text.
pub proof fn lemma_trim_id(s: Seq<char>)
    requires
        clear_of(s, CharClass::Whitespace),
    ensures
        trim(s) == s,
{
    lemma_strip_id(s, CharClass::Whitespace);
}

} // verus!
