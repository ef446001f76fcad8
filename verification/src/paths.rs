//! Paths as text: components separated by `/`. The library names files and
//! directories; it never touches them.

use vstd::prelude::*;
use crate::text::{
    CharClass, chars_of, copy_of, lemma_rspan, push_str, rspan, rspan_in, slice, string_of,
};

verus! {

/// Number of characters after the last `c` of `s`; `s.len()` where it has none.
pub open spec fn tail_len(s: Seq<char>, c: char) -> nat {
    rspan(s, CharClass::Except(c))
}

/// `dir` and `name` as one path.
pub open spec fn join_path(dir: Seq<char>, name: Seq<char>) -> Seq<char> {
    if dir.len() == 0 {
        name
    } else if dir.last() == '/' {
        dir + name
    } else {
        dir + seq!['/'] + name
    }
}

/// The last component of a path.
pub open spec fn file_name(p: Seq<char>) -> Seq<char> {
    p.skip(p.len() - tail_len(p, '/'))
}

/// Index of the dot that starts the extension of a file name: its last dot,
/// unless that is its first character or the name is `..`.
pub open spec fn dot_index(name: Seq<char>) -> Option<int> {
    let k = tail_len(name, '.');
    if k >= name.len() || name.len() - k - 1 == 0 || (name.len() == 2 && name[0] == '.' && name[1]
        == '.') {
        None
    } else {
        Some(name.len() - k - 1)
    }
}

/// The extension of a path's file name, without the dot.
pub open spec fn extension(p: Seq<char>) -> Option<Seq<char>> {
    let n = file_name(p);
    match dot_index(n) {
        Some(i) => Some(n.skip(i + 1)),
        None => None,
    }
}

/// The file name of a path without its extension.
pub open spec fn file_stem(p: Seq<char>) -> Seq<char> {
    let n = file_name(p);
    match dot_index(n) {
        Some(i) => n.take(i),
        None => n,
    }
}

/// The path without the extension of its file name.
pub open spec fn without_extension(p: Seq<char>) -> Seq<char> {
    match extension(p) {
        Some(e) => p.take(p.len() - e.len() - 1),
        None => p,
    }
}

/// The directory that holds `p`: nothing for the empty path and for the
/// root, the empty path for a single relative component.
pub open spec fn parent_path(p: Seq<char>) -> Option<Seq<char>> {
    let k = tail_len(p, '/');
    if p.len() == 0 || (p.len() == 1 && p[0] == '/') {
        None
    } else if k >= p.len() {
        Some(Seq::empty())
    } else if p.len() - k == 1 {
        Some(seq!['/'])
    } else {
        Some(p.take(p.len() - k - 1))
    }
}

/// `p`, then its parent, then that one's parent, up to the last directory
/// that has none.
pub open spec fn ancestors(p: Seq<char>) -> Seq<Seq<char>>
    decreases p.len(),
{
    match parent_path(p) {
        None => seq![p],
        Some(q) => {
            proof {
                lemma_rspan(p, CharClass::Except('/'));
            }
            seq![p] + ancestors(q)
        },
    }
}

/// `dir` and `name` as one path.
pub fn join_path_of(dir: &Vec<char>, name: &str) -> (r: Vec<char>)
    ensures
        r@ == join_path(dir@, name@),
{
    let mut r = copy_of(dir);
    if dir.len() > 0 && dir[dir.len() - 1] != '/' {
        r.push('/');
    }
    push_str(&mut r, name);
    assert(Seq::<char>::empty() + name@ =~= name@);
    r
}

/// The last component of a path.
pub fn file_name_of(p: &Vec<char>) -> (r: Vec<char>)
    ensures
        r@ == file_name(p@),
{
    let k = rspan_in(p, 0, p.len(), CharClass::Except('/'));
    assert(p@.subrange(0, p.len() as int) =~= p@);
    assert(p@.subrange(p.len() - k, p.len() as int) =~= p@.skip(p.len() - k));
    slice(p, p.len() - k, p.len())
}

/// Index of the dot that starts the extension of a file name.
pub fn dot_index_of(name: &Vec<char>) -> (r: Option<usize>)
    ensures
        match dot_index(name@) {
            Some(i) => r == Some(i as usize) && 0 < i < name.len(),
            None => r is None,
        },
{
    let k = rspan_in(name, 0, name.len(), CharClass::Except('.'));
    assert(name@.subrange(0, name.len() as int) =~= name@);
    if k >= name.len() || name.len() - k - 1 == 0 || (name.len() == 2 && name[0] == '.' && name[1]
        == '.') {
        None
    } else {
        Some(name.len() - k - 1)
    }
}

/// The extension of a path's file name.
pub fn extension_of(p: &Vec<char>) -> (r: Option<Vec<char>>)
    ensures
        match extension(p@) {
            Some(e) => r matches Some(x) && x@ == e,
            None => r is None,
        },
{
    let n = file_name_of(p);
    match dot_index_of(&n) {
        Some(i) => {
            assert(n@.subrange(i + 1, n.len() as int) =~= n@.skip(i + 1));
            Some(slice(&n, i + 1, n.len()))
        },
        None => None,
    }
}

/// The file name of a path without its extension.
pub fn file_stem_of(p: &Vec<char>) -> (r: Vec<char>)
    ensures
        r@ == file_stem(p@),
{
    let n = file_name_of(p);
    match dot_index_of(&n) {
        Some(i) => {
            assert(n@.subrange(0, i as int) =~= n@.take(i as int));
            slice(&n, 0, i)
        },
        None => n,
    }
}

/// The path without the extension of its file name.
pub fn without_extension_of(p: &Vec<char>) -> (r: Vec<char>)
    ensures
        r@ == without_extension(p@),
{
    match extension_of(p) {
        Some(e) => {
            proof {
                lemma_rspan(p@, CharClass::Except('/'));
                lemma_rspan(file_name(p@), CharClass::Except('.'));
            }
            assert(p@.subrange(0, p.len() - e.len() - 1) =~= p@.take(p.len() - e.len() - 1));
            slice(p, 0, p.len() - e.len() - 1)
        },
        None => copy_of(p),
    }
}

/// The directory that holds `p`.
pub fn parent_path_of(p: &Vec<char>) -> (r: Option<Vec<char>>)
    ensures
        match parent_path(p@) {
            Some(q) => r matches Some(x) && x@ == q && q.len() < p@.len(),
            None => r is None,
        },
{
    let k = rspan_in(p, 0, p.len(), CharClass::Except('/'));
    assert(p@.subrange(0, p.len() as int) =~= p@);
    if p.len() == 0 || (p.len() == 1 && p[0] == '/') {
        None
    } else if k >= p.len() {
        Some(Vec::new())
    } else if p.len() - k == 1 {
        let mut r: Vec<char> = Vec::new();
        r.push('/');
        assert(r@ =~= seq!['/']);
        Some(r)
    } else {
        assert(p@.subrange(0, p.len() - k - 1) =~= p@.take(p.len() - k - 1));
        Some(slice(p, 0, p.len() - k - 1))
    }
}

/// `p` and the directories above it, nearest first.
pub fn ancestors_of(p: &Vec<char>) -> (r: Vec<Vec<char>>)
    ensures
        crate::text::rows(r@) == ancestors(p@),
    decreases p@.len(),
{
    match parent_path_of(p) {
        None => {
            let mut r: Vec<Vec<char>> = Vec::new();
            r.push(copy_of(p));
            assert(crate::text::rows(r@) =~= seq![p@]);
            r
        },
        Some(q) => {
            let rest = ancestors_of(&q);
            let mut r: Vec<Vec<char>> = Vec::new();
            r.push(copy_of(p));
            let mut i: usize = 0;
            while i < rest.len()
                invariant
                    i <= rest.len(),
                    crate::text::rows(r@) == seq![p@] + crate::text::rows(rest@).take(i as int),
                decreases rest.len() - i,
            {
                let ghost prev = r@;
                r.push(copy_of(&rest[i]));
                assert(crate::text::rows(r@) =~= crate::text::rows(prev).push(rest@[i as int]@));
                assert(crate::text::rows(rest@).take(i + 1) =~= crate::text::rows(rest@).take(
                    i as int,
                ).push(rest@[i as int]@));
                i += 1;
                assert(crate::text::rows(r@) =~= seq![p@] + crate::text::rows(rest@).take(
                    i as int,
                ));
            }
            assert(crate::text::rows(rest@).take(rest.len() as int) =~= crate::text::rows(rest@));
            r
        },
    }
}

/// `dir` and `name` as one path.
pub fn join_paths(dir: &str, name: &str) -> (r: String)
    ensures
        r@ == join_path(dir@, name@),
{
    let d = chars_of(dir);
    let r = join_path_of(&d, name);
    string_of(&r)
}

} // verus!
