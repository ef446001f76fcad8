//! Where the knowledge base lives: the directory `.llmd` of a project, and
//! the places of its files.
//!
//! The search for the directory goes upward from a starting directory. The
//! library names the candidates; the caller says which of them exist.

use vstd::prelude::*;
use crate::paths::{ancestors, ancestors_of, join_path, join_path_of, join_paths};
use crate::text::{chars_of, rows, string_of};

verus! {

/// The directory `.llmd` of each directory from `start` upward, nearest first.
pub open spec fn candidates(start: Seq<char>) -> Seq<Seq<char>> {
    ancestors(start).map_values(|d: Seq<char>| join_path(d, ".llmd"@))
}

/// Index of the first candidate that exists, among those that were probed.
pub open spec fn first_present(present: Seq<bool>, i: int) -> int
    decreases present.len() - i,
{
    if i < 0 || i >= present.len() {
        present.len() as int
    } else if present[i] {
        i
    } else {
        first_present(present, i + 1)
    }
}

/// The nearest candidate that exists, where `present[i]` tells whether the
/// `i`-th candidate is a directory.
pub open spec fn found(start: Seq<char>, present: Seq<bool>) -> Option<Seq<char>> {
    let i = first_present(present, 0);
    if i < present.len() && i < candidates(start).len() {
        Some(candidates(start)[i])
    } else {
        None
    }
}

/// The texts of a list of strings.
pub open spec fn texts(v: Seq<String>) -> Seq<Seq<char>> {
    v.map_values(|s: String| s@)
}

/// The places where the directory `.llmd` may be, searching upward from
/// `start`: one for `start` and one for each directory above it.
pub fn search_path(start: &str) -> (r: Vec<String>)
    ensures
        texts(r@) == candidates(start@),
{
    let s = chars_of(start);
    let dirs = ancestors_of(&s);
    let mut r: Vec<String> = Vec::new();
    let mut i: usize = 0;
    assert(texts(r@) =~= candidates(start@).take(0));
    while i < dirs.len()
        invariant
            i <= dirs.len(),
            rows(dirs@) == ancestors(start@),
            texts(r@) == candidates(start@).take(i as int),
        decreases dirs.len() - i,
    {
        let c = join_path_of(&dirs[i], ".llmd");
        assert(rows(dirs@)[i as int] == dirs@[i as int]@);
        let ghost prev = r@;
        r.push(string_of(&c));
        assert(texts(r@) =~= texts(prev).push(c@));
        assert(candidates(start@).take(i + 1) =~= candidates(start@).take(i as int).push(c@));
        i += 1;
    }
    assert(candidates(start@).take(dirs.len() as int) =~= candidates(start@));
    r
}

/// Resolves the path of the `.llmd` directory, searching upward from
/// `start`: the nearest candidate of `search_path(start)` that is a
/// directory, as `is_dir` tells for each of them in order. `None` where none is.
pub fn find(start: &str, is_dir: &Vec<bool>) -> (r: Option<String>)
    ensures
        crate::issues::models::opt_text(r) == found(start@, is_dir@),
{
    let all = search_path(start);
    let mut i: usize = 0;
    while i < is_dir.len()
        invariant
            i <= is_dir.len(),
            texts(all@) == candidates(start@),
            first_present(is_dir@, 0) == first_present(is_dir@, i as int),
        decreases is_dir.len() - i,
    {
        if is_dir[i] {
            if i < all.len() {
                assert(texts(all@)[i as int] == all@[i as int]@);
                let c = chars_of(all[i].as_str());
                return Some(string_of(&c));
            } else {
                return None;
            }
        }
        i += 1;
    }
    None
}

/// Returns the path of `catme.md` inside the given `.llmd` directory.
pub fn catme_path(llmd: &str) -> (r: String)
    ensures
        r@ == join_path(llmd@, "catme.md"@),
{
    join_paths(llmd, "catme.md")
}

/// Returns the path of the issues directory inside the given `.llmd` directory.
pub fn issues_path(llmd: &str) -> (r: String)
    ensures
        r@ == join_path(llmd@, "issues"@),
{
    join_paths(llmd, "issues")
}

} // verus!
