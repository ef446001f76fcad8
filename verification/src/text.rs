//! Character-sequence primitives on which the document model is built.
//!
//! Text is modelled as `Seq<char>`. The executable functions work on
//! `Vec<char>` and are specified against the spec functions of this file.

use vstd::prelude::*;

verus! {

/// The characters with the Unicode `White_Space` property.
pub open spec fn is_whitespace(c: char) -> bool {
    let n = c as u32;
    ||| 0x09 <= n <= 0x0D
    ||| n == 0x20
    ||| n == 0x85
    ||| n == 0xA0
    ||| n == 0x1680
    ||| 0x2000 <= n <= 0x200A
    ||| n == 0x2028
    ||| n == 0x2029
    ||| n == 0x202F
    ||| n == 0x205F
    ||| n == 0x3000
}

/// Decides `is_whitespace`.
pub fn char_is_whitespace(c: char) -> (r: bool)
    ensures
        r == is_whitespace(c),
{
    let n: u32 = c as u32;
    (0x09 <= n && n <= 0x0D) || n == 0x20 || n == 0x85 || n == 0xA0 || n == 0x1680 || (0x2000 <= n
        && n <= 0x200A) || n == 0x2028 || n == 0x2029 || n == 0x202F || n == 0x205F || n == 0x3000
}

/// A set of characters that a scan can test for.
#[derive(Clone, Copy, Debug)]
pub enum CharClass {
    Whitespace,
    NonWhitespace,
    Only(char),
    Except(char),
    /// Neither a letter nor a digit: punctuation, symbols and the like.
    Punctuation,
}

impl CharClass {
    /// The class holds the character `c`.
    pub open spec fn has(self, c: char) -> bool {
        match self {
            CharClass::Whitespace => is_whitespace(c),
            CharClass::NonWhitespace => !is_whitespace(c),
            CharClass::Only(x) => c == x,
            CharClass::Except(x) => c != x,
            CharClass::Punctuation => !is_letter_or_digit(c),
        }
    }

    /// Decides whether the class holds the character `c`.
    pub fn test(self, c: char) -> (r: bool)
        ensures
            r == self.has(c),
    {
        match self {
            CharClass::Whitespace => char_is_whitespace(c),
            CharClass::NonWhitespace => !char_is_whitespace(c),
            CharClass::Only(x) => c == x,
            CharClass::Except(x) => c != x,
            CharClass::Punctuation => !char_is_letter_or_digit(c),
        }
    }
}

/// Length of the longest prefix of `s` whose characters all lie in `k`.
pub open spec fn span(s: Seq<char>, k: CharClass) -> nat
    decreases s.len(),
{
    if s.len() > 0 && k.has(s[0]) {
        1 + span(s.drop_first(), k)
    } else {
        0
    }
}

/// Length of the longest suffix of `s` whose characters all lie in `k`.
pub open spec fn rspan(s: Seq<char>, k: CharClass) -> nat
    decreases s.len(),
{
    if s.len() > 0 && k.has(s.last()) {
        1 + rspan(s.drop_last(), k)
    } else {
        0
    }
}

/// The span is a prefix of characters of the class that ends at the end of
/// the text or before a character outside the class.
pub proof fn lemma_span(s: Seq<char>, k: CharClass)
    ensures
        span(s, k) <= s.len(),
        forall|j: int| 0 <= j < span(s, k) ==> k.has(#[trigger] s[j]),
        span(s, k) < s.len() ==> !k.has(s[span(s, k) as int]),
    decreases s.len(),
{
    if s.len() > 0 && k.has(s[0]) {
        let t = s.drop_first();
        lemma_span(t, k);
        assert forall|j: int| 0 <= j < span(s, k) implies k.has(#[trigger] s[j]) by {
            if j > 0 {
                assert(s[j] == t[j - 1]);
            }
        }
        if span(s, k) < s.len() {
            assert(s[span(s, k) as int] == t[span(t, k) as int]);
        }
    }
}

/// A prefix of characters of the class that ends at the end of the text or
/// before a character outside the class is the span.
pub proof fn lemma_span_is(s: Seq<char>, k: CharClass, n: int)
    requires
        0 <= n <= s.len(),
        forall|j: int| 0 <= j < n ==> k.has(#[trigger] s[j]),
        n < s.len() ==> !k.has(s[n]),
    ensures
        span(s, k) == n,
    decreases n,
{
    if n > 0 {
        let t = s.drop_first();
        assert(k.has(s[0]));
        assert forall|j: int| 0 <= j < n - 1 implies k.has(#[trigger] t[j]) by {
            assert(t[j] == s[j + 1]);
        }
        if n - 1 < t.len() {
            assert(t[n - 1] == s[n]);
        }
        lemma_span_is(t, k, n - 1);
    }
}

/// The reverse span is a suffix of characters of the class that begins at
/// the start of the text or after a character outside the class.
pub proof fn lemma_rspan(s: Seq<char>, k: CharClass)
    ensures
        rspan(s, k) <= s.len(),
        forall|j: int| s.len() - rspan(s, k) <= j < s.len() ==> k.has(#[trigger] s[j]),
        rspan(s, k) < s.len() ==> !k.has(s[s.len() - rspan(s, k) - 1]),
    decreases s.len(),
{
    if s.len() > 0 && k.has(s.last()) {
        let t = s.drop_last();
        lemma_rspan(t, k);
        assert forall|j: int| s.len() - rspan(s, k) <= j < s.len() implies k.has(
            #[trigger] s[j],
        ) by {
            if j < s.len() - 1 {
                assert(s[j] == t[j]);
            }
        }
        if rspan(s, k) < s.len() {
            assert(s[s.len() - rspan(s, k) - 1] == t[t.len() - rspan(t, k) - 1]);
        }
    }
}

/// A suffix of characters of the class that begins at the start of the text
/// or after a character outside the class is the reverse span.
pub proof fn lemma_rspan_is(s: Seq<char>, k: CharClass, n: int)
    requires
        0 <= n <= s.len(),
        forall|j: int| s.len() - n <= j < s.len() ==> k.has(#[trigger] s[j]),
        n < s.len() ==> !k.has(s[s.len() - n - 1]),
    ensures
        rspan(s, k) == n,
    decreases n,
{
    if n > 0 {
        let t = s.drop_last();
        assert(k.has(s[s.len() - 1]));
        assert forall|j: int| t.len() - (n - 1) <= j < t.len() implies k.has(#[trigger] t[j]) by {
            assert(t[j] == s[j]);
        }
        if n - 1 < t.len() {
            assert(t[t.len() - (n - 1) - 1] == s[s.len() - n - 1]);
        }
        lemma_rspan_is(t, k, n - 1);
    }
}

/// `s` without its longest prefix in `k`.
pub open spec fn strip_start(s: Seq<char>, k: CharClass) -> Seq<char> {
    s.skip(span(s, k) as int)
}

/// `s` without its longest suffix in `k`.
pub open spec fn strip_end(s: Seq<char>, k: CharClass) -> Seq<char> {
    s.take(s.len() - rspan(s, k))
}

/// `s` without its longest prefix and, of what is left, its longest suffix in `k`.
pub open spec fn strip(s: Seq<char>, k: CharClass) -> Seq<char> {
    strip_end(strip_start(s, k), k)
}

/// `s` without leading and trailing whitespace.
pub open spec fn trim(s: Seq<char>) -> Seq<char> {
    strip(s, CharClass::Whitespace)
}

/// `s` without leading whitespace.
pub open spec fn trim_start(s: Seq<char>) -> Seq<char> {
    strip_start(s, CharClass::Whitespace)
}

/// Number of leading whitespace characters.
pub open spec fn indent(s: Seq<char>) -> nat {
    span(s, CharClass::Whitespace)
}

/// Index of the first `c` in `s`, or `s.len()` where there is none.
pub open spec fn index_of(s: Seq<char>, c: char) -> nat {
    span(s, CharClass::Except(c))
}

/// The parts before and after the first `c`.
pub open spec fn split_once(s: Seq<char>, c: char) -> Option<(Seq<char>, Seq<char>)> {
    let e = index_of(s, c);
    if e < s.len() {
        Some((s.take(e as int), s.skip(e as int + 1)))
    } else {
        None
    }
}

/// The pieces of `s` between occurrences of `c`; always at least one piece.
pub open spec fn split(s: Seq<char>, c: char) -> Seq<Seq<char>>
    decreases s.len(),
{
    let e = index_of(s, c);
    if e < s.len() {
        seq![s.take(e as int)] + split(s.skip(e as int + 1), c)
    } else {
        seq![s]
    }
}

/// A line without its carriage return, where it ends in one.
pub open spec fn strip_cr(l: Seq<char>) -> Seq<char> {
    if l.len() > 0 && l.last() == '\r' {
        l.drop_last()
    } else {
        l
    }
}

/// The lines of `s`: split at each `\n`, a `\r` just before it removed too;
/// no empty line is reported after a final `\n`.
pub open spec fn lines(s: Seq<char>) -> Seq<Seq<char>>
    decreases s.len(),
{
    if s.len() == 0 {
        Seq::empty()
    } else {
        let e = index_of(s, '\n');
        if e < s.len() {
            seq![strip_cr(s.take(e as int))] + lines(s.skip(e as int + 1))
        } else {
            seq![s]
        }
    }
}

/// The maximal runs of non-whitespace characters in `s`, in order.
pub open spec fn words(s: Seq<char>) -> Seq<Seq<char>>
    decreases s.len(),
{
    let t = trim_start(s);
    let b = span(t, CharClass::NonWhitespace);
    if b == 0 {
        Seq::empty()
    } else {
        proof {
            lemma_span(s, CharClass::Whitespace);
            lemma_span(t, CharClass::NonWhitespace);
        }
        seq![t.take(b as int)] + words(t.skip(b as int))
    }
}

/// The first run of non-whitespace characters in `s`, if there is one.
pub open spec fn first_word(s: Seq<char>) -> Option<Seq<char>> {
    let t = trim_start(s);
    let b = span(t, CharClass::NonWhitespace);
    if b == 0 {
        None
    } else {
        Some(t.take(b as int))
    }
}

/// The parts joined, with `sep` between neighbours.
pub open spec fn join(parts: Seq<Seq<char>>, sep: Seq<char>) -> Seq<char>
    decreases parts.len(),
{
    if parts.len() == 0 {
        Seq::empty()
    } else if parts.len() == 1 {
        parts[0]
    } else {
        join(parts.drop_last(), sep) + sep + parts.last()
    }
}

/// `pat` stands in `s` at index `i`.
pub open spec fn occurs_at(s: Seq<char>, pat: Seq<char>, i: int) -> bool {
    &&& 0 <= i
    &&& i + pat.len() <= s.len()
    &&& s.subrange(i, i + pat.len()) == pat
}

/// `s` begins with `pat`.
pub open spec fn starts_with(s: Seq<char>, pat: Seq<char>) -> bool {
    occurs_at(s, pat, 0)
}

/// `s` ends with `pat`.
pub open spec fn ends_with(s: Seq<char>, pat: Seq<char>) -> bool {
    occurs_at(s, pat, s.len() - pat.len())
}

/// Index of the first occurrence of `pat` in `s` at or after `from`.
pub open spec fn find_from(s: Seq<char>, pat: Seq<char>, from: int) -> Option<int>
    decreases s.len() - from + 1,
{
    if from < 0 || from + pat.len() > s.len() {
        None
    } else if occurs_at(s, pat, from) {
        Some(from)
    } else {
        find_from(s, pat, from + 1)
    }
}

/// Index of the first occurrence of `pat` in `s`.
pub open spec fn find(s: Seq<char>, pat: Seq<char>) -> Option<int> {
    find_from(s, pat, 0)
}

/// `pat` occurs somewhere in `s`.
pub open spec fn contains(s: Seq<char>, pat: Seq<char>) -> bool {
    find(s, pat) is Some
}

/// What `find_from` returns is the least index of an occurrence.
pub proof fn lemma_find_from(s: Seq<char>, pat: Seq<char>, from: int)
    requires
        0 <= from,
    ensures
        match find_from(s, pat, from) {
            Some(i) => from <= i && occurs_at(s, pat, i) && forall|j: int|
                from <= j < i ==> !occurs_at(s, pat, j),
            None => forall|j: int| from <= j ==> !occurs_at(s, pat, j),
        },
    decreases s.len() - from + 1,
{
    if from + pat.len() > s.len() {
    } else if occurs_at(s, pat, from) {
    } else {
        lemma_find_from(s, pat, from + 1);
    }
}

/// The views of the rows of a table of characters.
pub open spec fn rows(v: Seq<Vec<char>>) -> Seq<Seq<char>> {
    v.map_values(|r: Vec<char>| r@)
}

/// A name for what `str::to_lowercase` returns: the lowercase form of `s`
/// as Unicode defines it.
pub uninterp spec fn lowercase(s: Seq<char>) -> Seq<char>;

/// `str::to_lowercase` returns the lowercase form of the slice, a function of
/// its characters alone.
pub assume_specification[ str::to_lowercase ](s: &str) -> (r: String)
    ensures
        r@ == lowercase(s@),
;

/// `String::push` appends one character.
pub assume_specification[ String::push ](s: &mut String, ch: char)
    ensures
        final(s)@ == old(s)@.push(ch),
;

/// The characters of a string slice, in order.
pub fn chars_of(s: &str) -> (v: Vec<char>)
    ensures
        v@ == s@,
{
    let mut v: Vec<char> = Vec::new();
    for c in it: s.chars()
        invariant
            it.seq() == s@,
            v@ == s@.take(it.index()),
    {
        v.push(c);
    }
    v
}

/// The string made of the given characters.
pub fn string_of(v: &Vec<char>) -> (s: String)
    ensures
        s@ == v@,
{
    let mut s = String::new();
    let mut i: usize = 0;
    while i < v.len()
        invariant
            i <= v.len(),
            s@ == v@.take(i as int),
        decreases v.len() - i,
    {
        s.push(v[i]);
        i += 1;
    }
    s
}

/// The lowercase form of `v`.
pub fn to_lower(v: &Vec<char>) -> (r: Vec<char>)
    ensures
        r@ == lowercase(v@),
{
    let s = string_of(v);
    let l = s.as_str().to_lowercase();
    chars_of(l.as_str())
}

/// A copy of `v[from..to]`.
pub fn slice(v: &Vec<char>, from: usize, to: usize) -> (r: Vec<char>)
    requires
        from <= to <= v.len(),
    ensures
        r@ == v@.subrange(from as int, to as int),
{
    let mut r: Vec<char> = Vec::new();
    let mut i: usize = from;
    while i < to
        invariant
            from <= i <= to <= v.len(),
            r@ == v@.subrange(from as int, i as int),
        decreases to - i,
    {
        r.push(v[i]);
        i += 1;
        assert(r@ =~= v@.subrange(from as int, i as int));
    }
    r
}

/// Appends `src` to `dst`.
pub fn push_all(dst: &mut Vec<char>, src: &Vec<char>)
    ensures
        final(dst)@ == old(dst)@ + src@,
{
    let mut i: usize = 0;
    while i < src.len()
        invariant
            i <= src.len(),
            dst@ == old(dst)@ + src@.take(i as int),
        decreases src.len() - i,
    {
        dst.push(src[i]);
        i += 1;
        assert(dst@ =~= old(dst)@ + src@.take(i as int));
    }
    assert(src@.take(src.len() as int) =~= src@);
}

/// Appends the characters of `src` to `dst`.
pub fn push_str(dst: &mut Vec<char>, src: &str)
    ensures
        final(dst)@ == old(dst)@ + src@,
{
    let v = chars_of(src);
    push_all(dst, &v);
}

/// Whether two texts are the same.
pub fn same(a: &Vec<char>, b: &Vec<char>) -> (r: bool)
    ensures
        r == (a@ == b@),
{
    if a.len() != b.len() {
        return false;
    }
    let mut i: usize = 0;
    while i < a.len()
        invariant
            i <= a.len(),
            a.len() == b.len(),
            forall|j: int| 0 <= j < i ==> a@[j] == b@[j],
        decreases a.len() - i,
    {
        if a[i] != b[i] {
            return false;
        }
        i += 1;
    }
    assert(a@ =~= b@);
    true
}

/// Whether `v` is the text of `lit`.
pub fn is_str(v: &Vec<char>, lit: &str) -> (r: bool)
    ensures
        r == (v@ == lit@),
{
    let w = chars_of(lit);
    same(v, &w)
}

/// Length of the longest prefix of `s[from..to]` in `k`.
pub fn span_in(s: &Vec<char>, from: usize, to: usize, k: CharClass) -> (n: usize)
    requires
        from <= to <= s.len(),
    ensures
        n == span(s@.subrange(from as int, to as int), k),
        from + n <= to,
{
    let mut i: usize = from;
    while i < to && k.test(s[i])
        invariant
            from <= i <= to <= s.len(),
            forall|j: int| from <= j < i ==> k.has(#[trigger] s@[j]),
        decreases to - i,
    {
        i += 1;
    }
    proof {
        let w = s@.subrange(from as int, to as int);
        assert forall|j: int| 0 <= j < i - from implies k.has(#[trigger] w[j]) by {
            assert(w[j] == s@[from + j]);
        }
        lemma_span_is(w, k, i - from);
    }
    i - from
}

/// Length of the longest suffix of `s[from..to]` in `k`.
pub fn rspan_in(s: &Vec<char>, from: usize, to: usize, k: CharClass) -> (n: usize)
    requires
        from <= to <= s.len(),
    ensures
        n == rspan(s@.subrange(from as int, to as int), k),
        from + n <= to,
{
    let mut i: usize = to;
    while i > from && k.test(s[i - 1])
        invariant
            from <= i <= to <= s.len(),
            forall|j: int| i <= j < to ==> k.has(#[trigger] s@[j]),
        decreases i - from,
    {
        i -= 1;
    }
    proof {
        let w = s@.subrange(from as int, to as int);
        assert forall|j: int| w.len() - (to - i) <= j < w.len() implies k.has(#[trigger] w[j]) by {
            assert(w[j] == s@[from + j]);
        }
        lemma_rspan_is(w, k, to - i);
    }
    to - i
}

/// `s` without its longest prefix in `k`.
pub fn strip_start_of(s: &Vec<char>, k: CharClass) -> (r: Vec<char>)
    ensures
        r@ == strip_start(s@, k),
{
    let n = span_in(s, 0, s.len(), k);
    assert(s@.subrange(0, s.len() as int) =~= s@);
    assert(s@.subrange(n as int, s.len() as int) =~= s@.skip(n as int));
    slice(s, n, s.len())
}

/// `s` without the characters of `k` at both ends.
pub fn strip_of(s: &Vec<char>, k: CharClass) -> (r: Vec<char>)
    ensures
        r@ == strip(s@, k),
{
    let a = span_in(s, 0, s.len(), k);
    let b = rspan_in(s, a, s.len(), k);
    assert(s@.subrange(0, s.len() as int) =~= s@);
    assert(s@.subrange(a as int, s.len() as int) =~= s@.skip(a as int));
    assert(s@.subrange(a as int, s.len() - b) =~= s@.skip(a as int).take(s.len() - a - b));
    slice(s, a, s.len() - b)
}

/// `s` without leading and trailing whitespace.
pub fn trim_of(s: &Vec<char>) -> (r: Vec<char>)
    ensures
        r@ == trim(s@),
{
    strip_of(s, CharClass::Whitespace)
}

/// The parts before and after the first `c`.
pub fn split_once_of(s: &Vec<char>, c: char) -> (r: Option<(Vec<char>, Vec<char>)>)
    ensures
        match split_once(s@, c) {
            Some((a, b)) => r matches Some((x, y)) && x@ == a && y@ == b,
            None => r is None,
        },
{
    let e = span_in(s, 0, s.len(), CharClass::Except(c));
    assert(s@.subrange(0, s.len() as int) =~= s@);
    if e < s.len() {
        let a = slice(s, 0, e);
        let b = slice(s, e + 1, s.len());
        assert(a@ =~= s@.take(e as int));
        assert(b@ =~= s@.skip(e + 1));
        Some((a, b))
    } else {
        None
    }
}

/// The pieces of `s` between occurrences of `c`.
pub fn split_of(s: &Vec<char>, c: char) -> (r: Vec<Vec<char>>)
    ensures
        rows(r@) == split(s@, c),
{
    let mut r: Vec<Vec<char>> = Vec::new();
    let mut i: usize = 0;
    assert(s@.skip(0) =~= s@);
    assert(rows(r@) + split(s@, c) =~= split(s@, c));
    loop
        invariant
            i <= s.len(),
            split(s@, c) == rows(r@) + split(s@.skip(i as int), c),
        decreases s.len() - i,
    {
        let n = span_in(s, i, s.len(), CharClass::Except(c));
        let ghost rest = s@.skip(i as int);
        let ghost before = rows(r@);
        assert(s@.subrange(i as int, s.len() as int) =~= rest);
        let piece = slice(s, i, i + n);
        assert(piece@ =~= rest.take(n as int));
        r.push(piece);
        assert(rows(r@) =~= before.push(piece@));
        if i + n < s.len() {
            assert(rest.skip(n + 1) =~= s@.skip(i + n + 1));
            assert(rows(r@) + split(rest.skip(n + 1), c) =~= before + split(rest, c));
            i = i + n + 1;
        } else {
            assert(piece@ =~= rest);
            assert(rows(r@) =~= before + split(rest, c));
            return r;
        }
    }
}

/// The lines of `s`.
pub fn lines_of(s: &Vec<char>) -> (r: Vec<Vec<char>>)
    ensures
        rows(r@) == lines(s@),
{
    let mut r: Vec<Vec<char>> = Vec::new();
    let mut i: usize = 0;
    assert(s@.skip(0) =~= s@);
    assert(rows(r@) + lines(s@) =~= lines(s@));
    while i < s.len()
        invariant
            i <= s.len(),
            lines(s@) == rows(r@) + lines(s@.skip(i as int)),
        decreases s.len() - i,
    {
        let n = span_in(s, i, s.len(), CharClass::Except('\n'));
        let ghost rest = s@.skip(i as int);
        let ghost before = rows(r@);
        assert(s@.subrange(i as int, s.len() as int) =~= rest);
        if i + n < s.len() {
            let mut end = i + n;
            if end > i && s[end - 1] == '\r' {
                end = end - 1;
            }
            let line = slice(s, i, end);
            assert(rest.take(n as int) =~= s@.subrange(i as int, i + n));
            assert(line@ =~= strip_cr(rest.take(n as int)));
            r.push(line);
            assert(rows(r@) =~= before.push(line@));
            assert(rest.skip(n + 1) =~= s@.skip(i + n + 1));
            assert(rows(r@) + lines(rest.skip(n + 1)) =~= before + lines(rest));
            i = i + n + 1;
        } else {
            let line = slice(s, i, s.len());
            assert(line@ =~= rest);
            r.push(line);
            assert(rows(r@) =~= before.push(line@));
            assert(s@.skip(s.len() as int) =~= Seq::<char>::empty());
            assert(rows(r@) + lines(s@.skip(s.len() as int)) =~= before + lines(rest));
            i = s.len();
        }
    }
    assert(s@.skip(s.len() as int) =~= Seq::<char>::empty());
    assert(rows(r@) + lines(s@.skip(i as int)) =~= rows(r@));
    r
}

/// The maximal runs of non-whitespace characters in `s`.
pub fn words_of(s: &Vec<char>) -> (r: Vec<Vec<char>>)
    ensures
        rows(r@) == words(s@),
{
    let mut r: Vec<Vec<char>> = Vec::new();
    let mut i: usize = 0;
    assert(s@.skip(0) =~= s@);
    assert(rows(r@) + words(s@) =~= words(s@));
    loop
        invariant
            i <= s.len(),
            words(s@) == rows(r@) + words(s@.skip(i as int)),
        decreases s.len() - i,
    {
        let ghost rest = s@.skip(i as int);
        let ghost before = rows(r@);
        let a = span_in(s, i, s.len(), CharClass::Whitespace);
        assert(s@.subrange(i as int, s.len() as int) =~= rest);
        let b = span_in(s, i + a, s.len(), CharClass::NonWhitespace);
        assert(s@.subrange(i + a, s.len() as int) =~= trim_start(rest));
        if b == 0 {
            assert(rows(r@) + words(rest) =~= rows(r@));
            return r;
        }
        let w = slice(s, i + a, i + a + b);
        assert(w@ =~= trim_start(rest).take(b as int));
        r.push(w);
        assert(rows(r@) =~= before.push(w@));
        assert(trim_start(rest).skip(b as int) =~= s@.skip(i + a + b));
        assert(rows(r@) + words(trim_start(rest).skip(b as int)) =~= before + words(rest));
        i = i + a + b;
    }
}

/// The first run of non-whitespace characters in `s`.
pub fn first_word_of(s: &Vec<char>) -> (r: Option<Vec<char>>)
    ensures
        match first_word(s@) {
            Some(w) => r matches Some(x) && x@ == w,
            None => r is None,
        },
{
    let a = span_in(s, 0, s.len(), CharClass::Whitespace);
    assert(s@.subrange(0, s.len() as int) =~= s@);
    let b = span_in(s, a, s.len(), CharClass::NonWhitespace);
    assert(s@.subrange(a as int, s.len() as int) =~= trim_start(s@));
    if b == 0 {
        None
    } else {
        let w = slice(s, a, a + b);
        assert(w@ =~= trim_start(s@).take(b as int));
        Some(w)
    }
}

/// The rows `from..to` joined, with `sep` between neighbours.
pub fn join_range(parts: &Vec<Vec<char>>, from: usize, to: usize, sep: &Vec<char>) -> (r: Vec<
    char,
>)
    requires
        from <= to <= parts.len(),
    ensures
        r@ == join(rows(parts@).subrange(from as int, to as int), sep@),
{
    let mut r: Vec<char> = Vec::new();
    let mut i: usize = from;
    assert(rows(parts@).subrange(from as int, from as int) =~= Seq::<Seq<char>>::empty());
    while i < to
        invariant
            from <= i <= to <= parts.len(),
            r@ == join(rows(parts@).subrange(from as int, i as int), sep@),
        decreases to - i,
    {
        let ghost done = rows(parts@).subrange(from as int, i as int);
        let ghost next = rows(parts@).subrange(from as int, i + 1);
        assert(next.drop_last() =~= done);
        assert(next.last() == parts@[i as int]@);
        if i > from {
            push_all(&mut r, sep);
        } else {
            assert(r@ =~= Seq::<char>::empty());
        }
        push_all(&mut r, &parts[i]);
        assert(r@ =~= join(next, sep@));
        i += 1;
    }
    r
}

/// The rows joined, with `sep` between neighbours.
pub fn join_of(parts: &Vec<Vec<char>>, sep: &Vec<char>) -> (r: Vec<char>)
    ensures
        r@ == join(rows(parts@), sep@),
{
    assert(rows(parts@).subrange(0, parts.len() as int) =~= rows(parts@));
    join_range(parts, 0, parts.len(), sep)
}

/// Whether `pat` stands in `s` at index `i`.
pub fn matches_at(s: &Vec<char>, pat: &Vec<char>, i: usize) -> (r: bool)
    ensures
        r == occurs_at(s@, pat@, i as int),
{
    if pat.len() > s.len() || i > s.len() - pat.len() {
        return false;
    }
    let mut k: usize = 0;
    while k < pat.len()
        invariant
            k <= pat.len(),
            i + pat.len() <= s.len(),
            forall|j: int| 0 <= j < k ==> s@[i + j] == pat@[j],
        decreases pat.len() - k,
    {
        if s[i + k] != pat[k] {
            assert(s@.subrange(i as int, i + pat.len())[k as int] == s@[i + k]);
            return false;
        }
        k += 1;
    }
    assert(s@.subrange(i as int, i + pat.len()) =~= pat@);
    true
}

/// Whether `s` begins with the text of `lit`.
pub fn starts_with_str(s: &Vec<char>, lit: &str) -> (r: bool)
    ensures
        r == starts_with(s@, lit@),
{
    let p = chars_of(lit);
    matches_at(s, &p, 0)
}

/// Whether `s` ends with `pat`.
pub fn ends_with_of(s: &Vec<char>, pat: &Vec<char>) -> (r: bool)
    ensures
        r == ends_with(s@, pat@),
{
    if pat.len() > s.len() {
        return false;
    }
    matches_at(s, pat, s.len() - pat.len())
}

/// Index of the first occurrence of `pat` in `s` at or after `from`.
pub fn find_in(s: &Vec<char>, pat: &Vec<char>, from: usize) -> (r: Option<usize>)
    ensures
        match find_from(s@, pat@, from as int) {
            Some(i) => r matches Some(x) && x == i && i + pat.len() <= s.len(),
            None => r is None,
        },
{
    if pat.len() > s.len() {
        return None;
    }
    let last = s.len() - pat.len();
    let mut i: usize = from;
    loop
        invariant
            from <= i,
            last == s.len() - pat.len(),
            find_from(s@, pat@, from as int) == find_from(s@, pat@, i as int),
        decreases last - i,
    {
        if i > last {
            return None;
        }
        if matches_at(s, pat, i) {
            return Some(i);
        }
        if i == last {
            assert(find_from(s@, pat@, i + 1) is None);
            return None;
        }
        i += 1;
    }
}

/// Whether `pat` occurs in `s`.
pub fn contains_of(s: &Vec<char>, pat: &Vec<char>) -> (r: bool)
    ensures
        r == contains(s@, pat@),
{
    find_in(s, pat, 0).is_some()
}

/// The piece of `s` before the first occurrence of `pat`; all of `s` where
/// there is none.
pub open spec fn first_piece(s: Seq<char>, pat: Seq<char>) -> Seq<char> {
    match find(s, pat) {
        Some(i) => s.take(i),
        None => s,
    }
}

/// The piece of `s` between the first occurrence of `pat` and the next one
/// after it, or the end; `None` where `pat` does not occur.
pub open spec fn second_piece(s: Seq<char>, pat: Seq<char>) -> Option<Seq<char>> {
    match find(s, pat) {
        None => None,
        Some(i) => {
            let rest = s.skip(i + pat.len());
            match find(rest, pat) {
                Some(j) => Some(rest.take(j)),
                None => Some(rest),
            }
        },
    }
}

/// Number of bytes that the UTF-8 form of `c` takes.
pub open spec fn utf8_width(c: char) -> nat {
    let n = c as u32;
    if n < 0x80 {
        1
    } else if n < 0x800 {
        2
    } else if n < 0x10000 {
        3
    } else {
        4
    }
}

/// Number of bytes that the UTF-8 form of `s` takes.
pub open spec fn byte_len(s: Seq<char>) -> nat
    decreases s.len(),
{
    if s.len() == 0 {
        0
    } else {
        byte_len(s.drop_last()) + utf8_width(s.last())
    }
}

/// Width of the leading whitespace of `line`, in bytes.
pub open spec fn indent_width(line: Seq<char>) -> nat {
    byte_len(line.take(span(line, CharClass::Whitespace) as int))
}

/// A letter of the ASCII alphabet.
pub open spec fn is_ascii_letter(c: char) -> bool {
    let n = c as u32;
    (0x41 <= n <= 0x5A) || (0x61 <= n <= 0x7A)
}

/// An ASCII decimal digit.
pub open spec fn is_ascii_digit(c: char) -> bool {
    let n = c as u32;
    0x30 <= n <= 0x39
}

/// A name for what `char::is_alphabetic` returns: whether `c` has the
/// Unicode property `Alphabetic`.
pub uninterp spec fn unicode_alphabetic(c: char) -> bool;

/// A name for what `char::is_alphanumeric` returns: whether `c` is
/// alphabetic or numeric as Unicode defines it.
pub uninterp spec fn unicode_alphanumeric(c: char) -> bool;

/// `char::is_alphabetic` is a function of the character alone.
pub assume_specification[ char::is_alphabetic ](c: char) -> (r: bool)
    ensures
        r == unicode_alphabetic(c),
;

/// `char::is_alphanumeric` is a function of the character alone.
pub assume_specification[ char::is_alphanumeric ](c: char) -> (r: bool)
    ensures
        r == unicode_alphanumeric(c),
;

/// A character of the ASCII range.
pub open spec fn is_ascii_char(c: char) -> bool {
    (c as u32) < 0x80
}

/// An alphabetic character: in the ASCII range a letter, beyond it what
/// Unicode calls alphabetic.
pub open spec fn is_letter(c: char) -> bool {
    if is_ascii_char(c) {
        is_ascii_letter(c)
    } else {
        unicode_alphabetic(c)
    }
}

/// An alphabetic or numeric character: in the ASCII range a letter or a
/// digit, beyond it what Unicode calls alphanumeric.
pub open spec fn is_letter_or_digit(c: char) -> bool {
    if is_ascii_char(c) {
        is_ascii_letter(c) || is_ascii_digit(c)
    } else {
        unicode_alphanumeric(c)
    }
}

/// Decides `is_letter`.
pub fn char_is_letter(c: char) -> (r: bool)
    ensures
        r == is_letter(c),
{
    let n: u32 = c as u32;
    if n < 0x80 {
        (0x41 <= n && n <= 0x5A) || (0x61 <= n && n <= 0x7A)
    } else {
        c.is_alphabetic()
    }
}

/// Decides `is_letter_or_digit`.
pub fn char_is_letter_or_digit(c: char) -> (r: bool)
    ensures
        r == is_letter_or_digit(c),
{
    let n: u32 = c as u32;
    if n < 0x80 {
        (0x41 <= n && n <= 0x5A) || (0x61 <= n && n <= 0x7A) || (0x30 <= n && n <= 0x39)
    } else {
        c.is_alphanumeric()
    }
}

/// A copy of `v`.
pub fn copy_of(v: &Vec<char>) -> (r: Vec<char>)
    ensures
        r@ == v@,
{
    assert(v@.subrange(0, v.len() as int) =~= v@);
    slice(v, 0, v.len())
}

/// The piece of `s` before the first occurrence of `pat`.
pub fn first_piece_of(s: &Vec<char>, pat: &Vec<char>) -> (r: Vec<char>)
    ensures
        r@ == first_piece(s@, pat@),
{
    match find_in(s, pat, 0) {
        Some(i) => {
            assert(s@.subrange(0, i as int) =~= s@.take(i as int));
            slice(s, 0, i)
        },
        None => copy_of(s),
    }
}

/// The piece of `s` between the first two occurrences of `pat`.
pub fn second_piece_of(s: &Vec<char>, pat: &Vec<char>) -> (r: Option<Vec<char>>)
    ensures
        match second_piece(s@, pat@) {
            Some(p) => r matches Some(x) && x@ == p,
            None => r is None,
        },
{
    match find_in(s, pat, 0) {
        None => None,
        Some(i) => {
            let rest = slice(s, i + pat.len(), s.len());
            assert(rest@ =~= s@.skip(i + pat.len()));
            match find_in(&rest, pat, 0) {
                Some(j) => {
                    assert(rest@.subrange(0, j as int) =~= rest@.take(j as int));
                    Some(slice(&rest, 0, j))
                },
                None => Some(rest),
            }
        },
    }
}

/// Width of the leading whitespace of `line`, in bytes.
pub fn indent_width_of(line: &Vec<char>) -> (w: u128)
    ensures
        w == indent_width(line@),
{
    let n = span_in(line, 0, line.len(), CharClass::Whitespace);
    assert(line@.subrange(0, line.len() as int) =~= line@);
    let mut w: u128 = 0;
    let mut i: usize = 0;
    assert(line@.take(0) =~= Seq::<char>::empty());
    while i < n
        invariant
            i <= n <= line.len(),
            w == byte_len(line@.take(i as int)),
            w <= 4 * i,
        decreases n - i,
    {
        let c: u32 = line[i] as u32;
        let ghost next = line@.take(i + 1);
        assert(next.drop_last() =~= line@.take(i as int));
        assert(next.last() == line@[i as int]);
        let k: u128 = if c < 0x80 {
            1
        } else if c < 0x800 {
            2
        } else if c < 0x10000 {
            3
        } else {
            4
        };
        w = w + k;
        i += 1;
    }
    w
}

/// `a` stands before `b` in the dictionary order of their characters, which
/// is the order of strings.
pub open spec fn lex_less(a: Seq<char>, b: Seq<char>) -> bool
    decreases a.len(),
{
    if b.len() == 0 {
        false
    } else if a.len() == 0 {
        true
    } else if a[0] != b[0] {
        a[0] < b[0]
    } else {
        lex_less(a.drop_first(), b.drop_first())
    }
}

/// Of two different texts one stands before the other.
pub proof fn lemma_lex_total(a: Seq<char>, b: Seq<char>)
    ensures
        a != b ==> lex_less(a, b) || lex_less(b, a),
        !(lex_less(a, b) && lex_less(b, a)),
        a == b ==> !lex_less(a, b),
    decreases a.len(),
{
    if a.len() == 0 || b.len() == 0 {
        if a.len() == 0 && b.len() == 0 {
            assert(a =~= b);
        }
    } else if a[0] == b[0] {
        lemma_lex_total(a.drop_first(), b.drop_first());
        if a.drop_first() == b.drop_first() {
            assert(a =~= seq![a[0]] + a.drop_first());
            assert(b =~= seq![b[0]] + b.drop_first());
        }
    }
}

/// The dictionary order is transitive.
pub proof fn lemma_lex_trans(a: Seq<char>, b: Seq<char>, c: Seq<char>)
    requires
        lex_less(a, b),
        lex_less(b, c),
    ensures
        lex_less(a, c),
    decreases a.len(),
{
    if a.len() > 0 && a[0] == b[0] && b[0] == c[0] {
        lemma_lex_trans(a.drop_first(), b.drop_first(), c.drop_first());
    }
}

/// Every row stands before all later ones: the rows are in strict order.
pub open spec fn strictly_sorted(v: Seq<Seq<char>>) -> bool {
    forall|i: int, j: int| 0 <= i < j < v.len() ==> lex_less(#[trigger] v[i], #[trigger] v[j])
}

/// Whether `a` stands before `b` in the dictionary order.
pub fn lex_less_of(a: &Vec<char>, b: &Vec<char>) -> (r: bool)
    ensures
        r == lex_less(a@, b@),
{
    let mut i: usize = 0;
    assert(a@.skip(0) =~= a@);
    assert(b@.skip(0) =~= b@);
    loop
        invariant
            i <= a.len(),
            i <= b.len(),
            lex_less(a@, b@) == lex_less(a@.skip(i as int), b@.skip(i as int)),
        decreases a.len() - i,
    {
        if i >= b.len() {
            return false;
        }
        if i >= a.len() {
            return true;
        }
        assert(a@.skip(i as int)[0] == a@[i as int]);
        assert(b@.skip(i as int)[0] == b@[i as int]);
        if a[i] != b[i] {
            return a[i] < b[i];
        }
        assert(a@.skip(i as int).drop_first() =~= a@.skip(i + 1));
        assert(b@.skip(i as int).drop_first() =~= b@.skip(i + 1));
        i += 1;
    }
}

/// The different rows of `items`, in strict dictionary order.
pub fn sorted_set(items: &Vec<Vec<char>>) -> (out: Vec<Vec<char>>)
    ensures
        strictly_sorted(rows(out@)),
        forall|t: Seq<char>| rows(out@).contains(t) <==> rows(items@).contains(t),
{
    let mut out: Vec<Vec<char>> = Vec::new();
    let mut i: usize = 0;
    while i < items.len()
        invariant
            i <= items.len(),
            strictly_sorted(rows(out@)),
            forall|t: Seq<char>|
                rows(out@).contains(t) <==> rows(items@).take(i as int).contains(t),
        decreases items.len() - i,
    {
        let x = &items[i];
        let ghost before = rows(out@);
        let ghost seen = rows(items@).take(i as int);
        let ghost more = rows(items@).take(i + 1);
        assert(more =~= seen.push(x@));
        let mut p: usize = 0;
        while p < out.len() && lex_less_of(&out[p], x)
            invariant
                p <= out.len(),
                before == rows(out@),
                forall|q: int| 0 <= q < p ==> lex_less(#[trigger] before[q], x@),
            decreases out.len() - p,
        {
            p += 1;
        }
        let same_here = p < out.len() && same(&out[p], x);
        if same_here {
            assert(before[p as int] == x@);
            assert(before.contains(x@));
            assert forall|t: Seq<char>| before.contains(t) <==> more.contains(t) by {
                if more.contains(t) {
                    let k = choose|k: int| 0 <= k < more.len() && more[k] == t;
                    if k < seen.len() {
                        assert(seen[k] == t);
                    }
                }
                if before.contains(t) {
                    assert(seen.contains(t));
                    let k = choose|k: int| 0 <= k < seen.len() && seen[k] == t;
                    assert(more[k] == t);
                }
            }
        } else {
            proof {
                if p < before.len() {
                    lemma_lex_total(before[p as int], x@);
                }
            }
            out.insert(p, copy_of(x));
            let ghost after = rows(out@);
            assert(after =~= before.insert(p as int, x@));
            assert forall|a: int, b: int| 0 <= a < b < after.len() implies lex_less(
                #[trigger] after[a],
                #[trigger] after[b],
            ) by {
                let ia = if a < p { a } else { a - 1 };
                let ib = if b < p { b } else { b - 1 };
                if a != p {
                    assert(after[a] == before[ia]);
                }
                if b != p {
                    assert(after[b] == before[ib]);
                }
                if a == p {
                    if ib > p {
                        assert(lex_less(before[p as int], before[ib]));
                        lemma_lex_trans(x@, before[p as int], before[ib]);
                    }
                } else if b == p {
                } else {
                    assert(lex_less(before[ia], before[ib]));
                }
            }
            assert forall|t: Seq<char>| after.contains(t) <==> more.contains(t) by {
                if after.contains(t) {
                    let k = choose|k: int| 0 <= k < after.len() && after[k] == t;
                    if k == p {
                        assert(more[i as int] == t);
                    } else {
                        let ik = if k < p { k } else { k - 1 };
                        assert(before[ik] == t);
                        assert(before.contains(t));
                        assert(seen.contains(t));
                        let m = choose|m: int| 0 <= m < seen.len() && seen[m] == t;
                        assert(more[m] == t);
                    }
                }
                if more.contains(t) {
                    let m = choose|m: int| 0 <= m < more.len() && more[m] == t;
                    if m < seen.len() {
                        assert(seen[m] == t);
                        assert(seen.contains(t));
                        assert(before.contains(t));
                        let k = choose|k: int| 0 <= k < before.len() && before[k] == t;
                        let ok = if k < p { k } else { k + 1 };
                        assert(after[ok] == t);
                    } else {
                        assert(after[p as int] == t);
                    }
                }
            }
        }
        i += 1;
    }
    assert(rows(items@).take(items.len() as int) =~= rows(items@));
    out
}

/// Index of the last occurrence of `pat` in `s` at or before `from`.
pub open spec fn find_last_from(s: Seq<char>, pat: Seq<char>, from: int) -> Option<int>
    decreases from + 1,
{
    if from < 0 {
        None
    } else if occurs_at(s, pat, from) {
        Some(from)
    } else {
        find_last_from(s, pat, from - 1)
    }
}

/// Index of the last occurrence of `pat` in `s`.
pub open spec fn find_last(s: Seq<char>, pat: Seq<char>) -> Option<int> {
    find_last_from(s, pat, s.len() - pat.len())
}

/// Index of the last occurrence of `pat` in `s`.
pub fn find_last_in(s: &Vec<char>, pat: &Vec<char>) -> (r: Option<usize>)
    ensures
        match find_last(s@, pat@) {
            Some(i) => r matches Some(x) && x == i && i + pat.len() <= s.len(),
            None => r is None,
        },
{
    if pat.len() > s.len() {
        return None;
    }
    let mut i: usize = s.len() - pat.len();
    loop
        invariant
            i + pat.len() <= s.len(),
            find_last(s@, pat@) == find_last_from(s@, pat@, i as int),
        decreases i,
    {
        if matches_at(s, pat, i) {
            return Some(i);
        }
        if i == 0 {
            assert(find_last_from(s@, pat@, -1) is None);
            return None;
        }
        i -= 1;
    }
}

/// `s` with `part` put in at index `at`.
pub fn insert_at(s: &Vec<char>, at: usize, part: &Vec<char>) -> (r: Vec<char>)
    requires
        at <= s.len(),
    ensures
        r@ == s@.take(at as int) + part@ + s@.skip(at as int),
{
    let mut r = slice(s, 0, at);
    push_all(&mut r, part);
    let rest = slice(s, at, s.len());
    push_all(&mut r, &rest);
    assert(r@ =~= s@.take(at as int) + part@ + s@.skip(at as int));
    r
}

} // verus!
