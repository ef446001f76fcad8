//! Printing the section index.

use vstd::prelude::*;
use crate::commands::compose::IndexedSection;
use crate::llmd_dir::texts;
use crate::number::{decimal, decimal_of};
use crate::text::{push_all, push_str, string_of};

verus! {

/// The line of the entry at position `n`, counted from 1: the position in
/// brackets, then the entry's label.
pub open spec fn index_line(n: nat, label: Seq<char>) -> Seq<char> {
    seq!['['] + decimal(n) + "] "@ + label
}

/// The lines of the section index, one for each entry.
pub open spec fn index_lines(index: Seq<IndexedSection>) -> Seq<Seq<char>> {
    Seq::new(index.len(), |i: int| index_line((i + 1) as nat, index[i].label@))
}

/// The lines that print the section index: each entry with its position,
/// by which it is selected.
pub fn print_section_index(index: &Vec<IndexedSection>) -> (r: Vec<String>)
    ensures
        texts(r@) == index_lines(index@),
{
    let mut r: Vec<String> = Vec::new();
    let mut i: usize = 0;
    while i < index.len()
        invariant
            i <= index.len(),
            r@.len() == i,
            forall|j: int|
                0 <= j < i ==> (#[trigger] r@[j])@ == index_line((j + 1) as nat, index@[j].label@),
        decreases index.len() - i,
    {
        let mut line: Vec<char> = Vec::new();
        line.push('[');
        push_all(&mut line, &decimal_of((i + 1) as u64));
        push_str(&mut line, "] ");
        push_str(&mut line, index[i].label.as_str());
        assert(line@ =~= index_line((i + 1) as nat, index@[i as int].label@));
        r.push(string_of(&line));
        i += 1;
    }
    assert(texts(r@) =~= index_lines(index@));
    r
}

} // verus!
