//! Searching the documents: how the matches of one document are printed.

use vstd::prelude::*;
use crate::commands::read::{
    any_shown, gap_before, match_lines, matches_of, shown, shown_lines, PatternError,
};
use crate::number::{decimal, decimal_of};
use crate::pattern::{compile, pattern_is_valid};
use crate::text::{chars_of, lines, lines_of, push_all, push_str, rows, string_of};

verus! {

/// Arguments of the command that searches the documents.
#[derive(Debug, Clone)]
pub struct SearchArgs {
    /// Text or pattern to search for.
    pub query: String,
    /// Number of lines of context before and after each match.
    pub context: usize,
    /// Search only within this directory of the knowledge base.
    pub dir: Option<String>,
}

/// A number, with spaces in front up to a width of four.
pub open spec fn padded4(n: nat) -> Seq<char> {
    let d = decimal(n);
    if d.len() >= 4 {
        d
    } else if d.len() == 3 {
        seq![' '] + d
    } else if d.len() == 2 {
        seq![' ', ' '] + d
    } else {
        seq![' ', ' ', ' '] + d
    }
}

/// The line `j` of a document as the search prints it: a mark for a
/// match, the line's number, and the line.
pub open spec fn result_line(ls: Seq<Seq<char>>, matched: Seq<bool>, j: int) -> Seq<char> {
    "  "@ + (if matched[j] {
        seq!['>']
    } else {
        seq![' ']
    }) + seq![' '] + padded4((j + 1) as nat) + ": "@ + ls[j] + seq!['\n']
}

/// The first `n` lines of a document as the search prints them: the shown
/// lines, with `...` wherever lines are left out between them.
pub open spec fn result_text(ls: Seq<Seq<char>>, matched: Seq<bool>, shown: Seq<bool>, n: nat) -> Seq<
    char,
>
    decreases n,
{
    if n == 0 {
        Seq::empty()
    } else {
        let before = result_text(ls, matched, shown, (n - 1) as nat);
        if shown[n - 1] {
            before + (if gap_before(shown, n - 1) {
                "  ...\n"@
            } else {
                Seq::empty()
            }) + result_line(ls, matched, n - 1)
        } else {
            before
        }
    }
}

/// Number of matching lines among the first `n`.
pub open spec fn count_true(matched: Seq<bool>, n: nat) -> nat
    decreases n,
{
    if n == 0 {
        0
    } else {
        count_true(matched, (n - 1) as nat) + if matched[n - 1] {
            1nat
        } else {
            0nat
        }
    }
}

/// A number, at least four characters wide.
fn padded4_of(n: u64) -> (r: Vec<char>)
    ensures
        r@ == padded4(n as nat),
{
    let d = decimal_of(n);
    let mut r: Vec<char> = Vec::new();
    if d.len() < 4 {
        r.push(' ');
    }
    if d.len() < 3 {
        r.push(' ');
    }
    if d.len() < 2 {
        r.push(' ');
    }
    proof {
        crate::number::lemma_decimal_value(n as nat);
    }
    let ghost pad = r@;
    push_all(&mut r, &d);
    assert(r@ =~= padded4(n as nat));
    r
}

/// The matches of one document as the search prints them, and their number.
pub fn render_results(ls: &Vec<Vec<char>>, matched: &Vec<bool>, shown: &Vec<bool>) -> (r: (
    Vec<char>,
    usize,
))
    requires
        ls.len() == matched.len(),
        ls.len() == shown.len(),
    ensures
        r.0@ == result_text(rows(ls@), matched@, shown@, ls.len() as nat),
        r.1 == count_true(matched@, ls.len() as nat),
{
    let mut out: Vec<char> = Vec::new();
    let mut count: usize = 0;
    let mut any = false;
    let mut j: usize = 0;
    while j < ls.len()
        invariant
            j <= ls.len(),
            ls.len() == matched.len(),
            ls.len() == shown.len(),
            out@ == result_text(rows(ls@), matched@, shown@, j as nat),
            count == count_true(matched@, j as nat),
            count <= j,
            any == any_shown(shown@, j as int),
        decreases ls.len() - j,
    {
        let ghost before = out@;
        if matched[j] {
            count += 1;
        }
        if shown[j] {
            if j > 0 && !shown[j - 1] && any {
                push_str(&mut out, "  ...\n");
            } else {
                assert(out@ =~= before + Seq::<char>::empty());
            }
            let ghost gapped = out@;
            push_str(&mut out, "  ");
            if matched[j] {
                out.push('>');
            } else {
                out.push(' ');
            }
            out.push(' ');
            push_all(&mut out, &padded4_of((j + 1) as u64));
            push_str(&mut out, ": ");
            push_all(&mut out, &ls[j]);
            out.push('\n');
            assert(rows(ls@)[j as int] == ls@[j as int]@);
            assert(out@ =~= gapped + result_line(rows(ls@), matched@, j as int));
            any = true;
            assert(shown@[j as int]);
        } else {
            assert(any_shown(shown@, j + 1) == any_shown(shown@, j as int)) by {
                if any_shown(shown@, j + 1) {
                    let k = choose|k: int| 0 <= k < j + 1 && k < shown@.len() && #[trigger] shown@[k];
                    assert(k < j);
                }
                if any_shown(shown@, j as int) {
                    let k = choose|k: int| 0 <= k < j && k < shown@.len() && #[trigger] shown@[k];
                    assert(k < j + 1);
                }
            }
        }
        j += 1;
    }
    (out, count)
}

/// What the search prints of a document for a pattern, below the line that
/// names the document (nothing where no line matches), and the number of
/// matching lines. Fails where the pattern is no regular expression.
pub fn search_document(content: &str, pattern: &str, context: usize) -> (r: Result<
    (String, usize),
    PatternError,
>)
    ensures
        match r {
            Ok(p) => {
                let ls = lines(content@);
                let matched = matches_of(ls, pattern@);
                &&& pattern_is_valid(pattern@)
                &&& p.0@ == result_text(ls, matched, shown(matched, context as nat), ls.len())
                &&& p.1 == count_true(matched, ls.len())
            },
            Err(e) => !pattern_is_valid(pattern@) && e.pattern@ == pattern@,
        },
{
    let re = match compile(pattern) {
        Ok(re) => re,
        Err(_) => {
            return Err(PatternError { pattern: string_of(&chars_of(pattern)) });
        },
    };
    let text = chars_of(content);
    let ls = lines_of(&text);
    let matched = match_lines(&re, &ls);
    assert(matched@ =~= matches_of(rows(ls@), pattern@));
    let shown = shown_lines(&matched, context);
    let res = render_results(&ls, &matched, &shown);
    Ok((string_of(&res.0), res.1))
}

/// What the search prints of a document for the query and the context of
/// the arguments, and the number of matching lines.
pub fn search_with(content: &str, args: &SearchArgs) -> (r: Result<(String, usize), PatternError>)
    ensures
        match r {
            Ok(p) => {
                let ls = lines(content@);
                let matched = matches_of(ls, args.query@);
                &&& pattern_is_valid(args.query@)
                &&& p.0@ == result_text(ls, matched, shown(matched, args.context as nat), ls.len())
                &&& p.1 == count_true(matched, ls.len())
            },
            Err(e) => !pattern_is_valid(args.query@) && e.pattern@ == args.query@,
        },
{
    search_document(content, args.query.as_str(), args.context)
}

} // verus!
