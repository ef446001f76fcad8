//! Finding mentions in the comments of an issue.

use vstd::prelude::*;
use crate::issues::file_ops::id_prefix;
use crate::issues::models::opt_text;
use crate::pattern::{compile, is_match, pattern_is_valid, pattern_matches, regex_matches};
use crate::text::{
    CharClass, chars_of, first_piece, first_piece_of, first_word, first_word_of, lines,
    lines_of, push_all, push_str, rows, second_piece, second_piece_of, slice, span_in,
    string_of, strip, strip_of,
};

verus! {

/// Arguments of the command that lists issues with mentions.
#[derive(Debug, Clone)]
pub struct MentionsArgs {
    /// The handle to look for; any mention where none is given.
    pub handle: Option<String>,
}

/// The pattern of a mention: `@` and the handle, or `@` and a word where no
/// handle is given.
pub open spec fn mention_pattern(handle: Option<Seq<char>>) -> Seq<char> {
    match handle {
        Some(h) => seq!['@'] + h,
        None => "@\\w+"@,
    }
}

/// The pattern that is searched for: that of the handle where it is a
/// regular expression, else that of any mention.
pub open spec fn effective_pattern(handle: Option<Seq<char>>) -> Seq<char> {
    if pattern_is_valid(mention_pattern(handle)) {
        mention_pattern(handle)
    } else {
        "@\\w+"@
    }
}

/// The records of the comments of an issue file: what stands in the fenced
/// block that follows the heading `## Comments`; empty where there is none.
pub open spec fn comment_block(content: Seq<char>) -> Seq<char> {
    match second_piece(content, "## Comments"@) {
        Some(section) => match second_piece(section, "```yaml"@) {
            Some(block) => first_piece(block, "```"@),
            None => Seq::empty(),
        },
        None => Seq::empty(),
    }
}

/// The first word after `key` in a line, or `fallback` where `key` does not
/// occur or nothing follows it; without double quotes at its ends.
pub open spec fn word_after(line: Seq<char>, key: Seq<char>, fallback: Seq<char>) -> Seq<char> {
    strip(
        match second_piece(line, key) {
            Some(p) => match first_word(p) {
                Some(w) => w,
                None => fallback,
            },
            None => fallback,
        },
        CharClass::Only('"'),
    )
}

/// The line that reports a mention: the issue's id and file stem, then
/// author, date and body as the matching line of the comments gives them.
pub open spec fn mention_line(stem: Seq<char>, line: Seq<char>) -> Seq<char> {
    seq!['#'] + id_prefix(stem) + seq![' '] + stem + " \u{2014} "@ + word_after(
        line,
        "author:"@,
        "?"@,
    ) + " ("@ + word_after(line, "date:"@, "?"@) + "): "@ + word_after(line, "body:"@, line)
}

/// Index of the first line at or after `i` that the pattern matches.
pub open spec fn first_matching(ls: Seq<Seq<char>>, pattern: Seq<char>, i: int) -> int
    decreases ls.len() - i,
{
    if i < 0 || i >= ls.len() {
        ls.len() as int
    } else if pattern_matches(pattern, ls[i]) {
        i
    } else {
        first_matching(ls, pattern, i + 1)
    }
}

/// What is reported of an issue file for a handle: the line of the first
/// comment line that the pattern matches; nothing where none does.
pub open spec fn mention_of(content: Seq<char>, stem: Seq<char>, handle: Option<Seq<char>>) -> Option<
    Seq<char>,
> {
    let ls = lines(comment_block(content));
    let p = effective_pattern(handle);
    let i = first_matching(ls, p, 0);
    if pattern_is_valid(p) && i < ls.len() {
        Some(mention_line(stem, ls[i]))
    } else {
        None
    }
}

/// The records of the comments of an issue file.
pub fn comment_block_of(content: &Vec<char>) -> (r: Vec<char>)
    ensures
        r@ == comment_block(content@),
{
    match second_piece_of(content, &chars_of("## Comments")) {
        Some(section) => match second_piece_of(&section, &chars_of("```yaml")) {
            Some(block) => first_piece_of(&block, &chars_of("```")),
            None => Vec::new(),
        },
        None => Vec::new(),
    }
}

/// The first word after `key` in a line, or `fallback`, without double quotes.
fn word_after_of(line: &Vec<char>, key: &str, fallback: &Vec<char>) -> (r: Vec<char>)
    ensures
        r@ == word_after(line@, key@, fallback@),
{
    let found = match second_piece_of(line, &chars_of(key)) {
        Some(p) => first_word_of(&p),
        None => None,
    };
    match found {
        Some(w) => strip_of(&w, CharClass::Only('"')),
        None => strip_of(fallback, CharClass::Only('"')),
    }
}

/// The line that reports a mention.
pub fn mention_line_of(stem: &Vec<char>, line: &Vec<char>) -> (r: Vec<char>)
    ensures
        r@ == mention_line(stem@, line@),
{
    let k = span_in(stem, 0, stem.len(), CharClass::Except('-'));
    assert(stem@.subrange(0, stem.len() as int) =~= stem@);
    let id = slice(stem, 0, k);
    assert(id@ =~= id_prefix(stem@));
    let unknown = chars_of("?");
    let mut out: Vec<char> = Vec::new();
    out.push('#');
    push_all(&mut out, &id);
    out.push(' ');
    push_all(&mut out, stem);
    push_str(&mut out, " \u{2014} ");
    push_all(&mut out, &word_after_of(line, "author:", &unknown));
    push_str(&mut out, " (");
    push_all(&mut out, &word_after_of(line, "date:", &unknown));
    push_str(&mut out, "): ");
    push_all(&mut out, &word_after_of(line, "body:", line));
    assert(out@ =~= mention_line(stem@, line@));
    out
}

/// Reports the first mention in the comments of an issue file, whose name
/// without extension is `stem`: the first line of the comment records that
/// the pattern of the handle matches. A handle that gives no regular
/// expression is replaced by the pattern of any mention.
pub fn find_mention(content: &str, stem: &str, handle: &Option<String>) -> (r: Option<String>)
    ensures
        opt_text(r) == mention_of(content@, stem@, opt_text(*handle)),
{
    let mut wanted: Vec<char> = Vec::new();
    match handle {
        Some(h) => {
            wanted.push('@');
            push_str(&mut wanted, h.as_str());
        },
        None => {
            push_str(&mut wanted, "@\\w+");
            assert(wanted@ =~= "@\\w+"@);
        },
    }
    assert(wanted@ == mention_pattern(opt_text(*handle)));
    let wanted = string_of(&wanted);
    let re = match compile(wanted.as_str()) {
        Ok(re) => re,
        Err(_) => match compile("@\\w+") {
            Ok(re) => re,
            Err(_) => {
                return None;
            },
        },
    };
    let ghost p = effective_pattern(opt_text(*handle));
    assert(forall|t: Seq<char>| #[trigger] regex_matches(re, t) == pattern_matches(p, t));
    let text = chars_of(content);
    let block = comment_block_of(&text);
    let ls = lines_of(&block);
    let s = chars_of(stem);
    let mut i: usize = 0;
    while i < ls.len()
        invariant
            i <= ls.len(),
            forall|t: Seq<char>| #[trigger] regex_matches(re, t) == pattern_matches(p, t),
            p == effective_pattern(opt_text(*handle)),
            pattern_is_valid(p),
            s@ == stem@,
            rows(ls@) == lines(comment_block(content@)),
            first_matching(rows(ls@), p, 0) == first_matching(rows(ls@), p, i as int),
        decreases ls.len() - i,
    {
        let line = string_of(&ls[i]);
        assert(rows(ls@)[i as int] == ls@[i as int]@);
        if is_match(&re, line.as_str()) {
            let out = mention_line_of(&s, &ls[i]);
            return Some(string_of(&out));
        }
        i += 1;
    }
    None
}

/// Reports the first mention of the handle of the arguments in the
/// comments of an issue file.
pub fn mention_for(content: &str, stem: &str, args: &MentionsArgs) -> (r: Option<String>)
    ensures
        opt_text(r) == mention_of(content@, stem@, opt_text(args.handle)),
{
    find_mention(content, stem, &args.handle)
}

} // verus!
