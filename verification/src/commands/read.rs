//! Reading a document: a range of lines, or the lines that match a pattern
//! with their context.

use vstd::prelude::*;
use crate::llmd_dir::texts;
use crate::markdown::{
    estimate_tokens, extract_section, line_window, section, token_estimate, window,
};
use crate::number::{parse_bounded, parse_number};
use crate::paths::{join_path, join_path_of};
use crate::pattern::{compile, is_match, pattern_is_valid, pattern_matches, regex_matches};
use crate::text::{
    chars_of, is_str, lines, lines_of, push_all, push_str, rows, split_once, split_once_of,
    string_of,
};

verus! {

/// Arguments of the command that reads a document.
#[derive(Debug, Clone)]
pub struct ReadArgs {
    /// File or topic name; `catme` means the overview document.
    pub file: String,
    /// Take only the section under this heading.
    pub section: Option<String>,
    /// Take only the lines that match this pattern, with two lines of context.
    pub grep: Option<String>,
    /// Take only the lines of this range, `START:END`, counted from 1.
    pub lines: Option<String>,
    /// Print an estimate of the number of tokens first.
    pub tokens: bool,
}

/// Why a range of lines was refused.
#[derive(Debug, Clone, Copy, PartialEq, Eq)]
pub enum RangeError {
    /// The text has no `:`.
    Form,
    /// What stands before the `:` is no number.
    Start,
    /// What stands after the `:` is no number.
    End,
    /// The start is 0, but lines are counted from 1.
    ZeroStart,
    /// The start lies after the end.
    Reversed,
}

/// The range that a text `START:END` denotes, or why it denotes none. The
/// text is split at its first `:`; the checks are made in the order of the
/// errors.
pub open spec fn line_range(range: Seq<char>) -> Result<(nat, nat), RangeError> {
    match split_once(range, ':') {
        None => Err(RangeError::Form),
        Some(p) => match parse_number(p.0, usize::MAX as nat) {
            None => Err(RangeError::Start),
            Some(start) => match parse_number(p.1, usize::MAX as nat) {
                None => Err(RangeError::End),
                Some(end) => if start == 0 {
                    Err(RangeError::ZeroStart)
                } else if start > end {
                    Err(RangeError::Reversed)
                } else {
                    Ok((start, end))
                },
            },
        },
    }
}

/// Parses a range of lines `START:END`.
pub fn parse_line_range(range: &str) -> (r: Result<(usize, usize), RangeError>)
    ensures
        match line_range(range@) {
            Ok(p) => r == Ok::<(usize, usize), RangeError>((p.0 as usize, p.1 as usize)),
            Err(e) => r == Err::<(usize, usize), RangeError>(e),
        },
{
    let text = chars_of(range);
    let parts = match split_once_of(&text, ':') {
        Some(p) => p,
        None => {
            return Err(RangeError::Form);
        },
    };
    let start = match parse_bounded(&parts.0, usize::MAX as u64) {
        Some(s) => s as usize,
        None => {
            return Err(RangeError::Start);
        },
    };
    let end = match parse_bounded(&parts.1, usize::MAX as u64) {
        Some(e) => e as usize,
        None => {
            return Err(RangeError::End);
        },
    };
    if start == 0 {
        Err(RangeError::ZeroStart)
    } else if start > end {
        Err(RangeError::Reversed)
    } else {
        Ok((start, end))
    }
}

impl RangeError {
    /// What to tell the user.
    pub fn message(&self) -> (r: String)
        ensures
            r@ == (match *self {
                RangeError::Form => "Line range must be in the form START:END, e.g. --lines 10:50"@,
                RangeError::Start => "Invalid start line number"@,
                RangeError::End => "Invalid end line number"@,
                RangeError::ZeroStart => "Line numbers are 1-indexed; start must be >= 1"@,
                RangeError::Reversed => "Start line must be <= end line"@,
            }),
    {
        let text = match self {
            RangeError::Form => "Line range must be in the form START:END, e.g. --lines 10:50",
            RangeError::Start => "Invalid start line number",
            RangeError::End => "Invalid end line number",
            RangeError::ZeroStart => "Line numbers are 1-indexed; start must be >= 1",
            RangeError::Reversed => "Start line must be <= end line",
        };
        string_of(&chars_of(text))
    }
}

/// The places where a document of the given name may be, in the order in
/// which they are tried: under the name itself, with the extension `md`, and
/// among the imported files. The name `catme` stands for `catme.md`.
pub open spec fn file_places(llmd: Seq<char>, name: Seq<char>) -> Seq<Seq<char>> {
    let n = if name == "catme"@ {
        "catme.md"@
    } else {
        name
    };
    seq![
        join_path(llmd, n),
        join_path(llmd, n + ".md"@),
        join_path(join_path(llmd, "imported"@), n),
    ]
}

/// The places where a document of the given name may be.
pub fn resolve_file(llmd: &str, name: &str) -> (r: Vec<String>)
    ensures
        texts(r@) == file_places(llmd@, name@),
{
    let root = chars_of(llmd);
    let given = chars_of(name);
    let n = if is_str(&given, "catme") {
        string_of(&chars_of("catme.md"))
    } else {
        string_of(&given)
    };
    let mut with_ext = chars_of(n.as_str());
    push_str(&mut with_ext, ".md");
    let with_ext = string_of(&with_ext);
    let imported = join_path_of(&root, "imported");
    let mut r: Vec<String> = Vec::new();
    r.push(string_of(&join_path_of(&root, n.as_str())));
    r.push(string_of(&join_path_of(&root, with_ext.as_str())));
    r.push(string_of(&join_path_of(&imported, n.as_str())));
    assert(texts(r@) =~= file_places(llmd@, name@));
    r
}

/// Line `j` is shown: a matching line lies at most `context` lines away.
pub open spec fn in_context(matched: Seq<bool>, context: nat, j: int) -> bool {
    exists|i: int| 0 <= i < matched.len() && #[trigger] matched[i] && i - context <= j <= i + context
}

/// Which lines are shown.
pub open spec fn shown(matched: Seq<bool>, context: nat) -> Seq<bool> {
    Seq::new(matched.len(), |j: int| in_context(matched, context, j))
}

/// Whether one of the first `n` lines is shown.
pub open spec fn any_shown(shown: Seq<bool>, n: int) -> bool {
    exists|k: int| 0 <= k < n && k < shown.len() && #[trigger] shown[k]
}

/// A gap stands before line `j`: the line is shown, the one before it is
/// not, and a shown line lies further up.
pub open spec fn gap_before(shown: Seq<bool>, j: int) -> bool {
    j > 0 && !shown[j - 1] && any_shown(shown, j)
}

/// The first `n` lines as `grep` prints them: each shown line with a
/// newline, and `...` on a line of its own wherever lines are left out
/// between two shown ones.
pub open spec fn context_text(ls: Seq<Seq<char>>, shown: Seq<bool>, n: nat) -> Seq<char>
    decreases n,
{
    if n == 0 {
        Seq::empty()
    } else {
        let before = context_text(ls, shown, (n - 1) as nat);
        if shown[n - 1] {
            before + (if gap_before(shown, n - 1) {
                "...\n"@
            } else {
                Seq::empty()
            }) + ls[n - 1] + seq!['\n']
        } else {
            before
        }
    }
}

/// Which lines are shown: those at most `context` lines away from a match.
pub fn shown_lines(matched: &Vec<bool>, context: usize) -> (r: Vec<bool>)
    ensures
        r@ == shown(matched@, context as nat),
{
    let n = matched.len();
    let mut r: Vec<bool> = Vec::new();
    let mut j: usize = 0;
    while j < n
        invariant
            j <= n,
            n == matched.len(),
            r@.len() == j,
            forall|x: int| 0 <= x < j ==> r@[x] == in_context(matched@, context as nat, x),
        decreases n - j,
    {
        let lo: usize = if context <= j {
            j - context
        } else {
            0
        };
        let hi: usize = if context < n - j {
            j + context
        } else {
            n - 1
        };
        let mut found = false;
        let mut i: usize = lo;
        while i <= hi && !found
            invariant
                lo <= i <= hi + 1,
                hi < n,
                n == matched.len(),
                j - context <= lo,
                hi <= j + context,
                found ==> in_context(matched@, context as nat, j as int),
                !found ==> forall|x: int| lo <= x < i ==> !matched@[x],
            decreases hi + 1 - i + if found { 0int } else { 1int },
        {
            if matched[i] {
                found = true;
                assert(matched@[i as int] && i - context <= j <= i + context);
            } else {
                i += 1;
            }
        }
        proof {
            if !found && in_context(matched@, context as nat, j as int) {
                let w = choose|w: int|
                    0 <= w < matched@.len() && #[trigger] matched@[w] && w - context <= j <= w
                        + context;
                assert(lo <= w <= hi);
            }
        }
        r.push(found);
        j += 1;
    }
    assert(r@ =~= shown(matched@, context as nat));
    r
}

/// The lines that are shown, each with a newline, with `...` wherever lines
/// are left out between them.
pub fn render_context(ls: &Vec<Vec<char>>, shown: &Vec<bool>) -> (r: Vec<char>)
    requires
        ls.len() == shown.len(),
    ensures
        r@ == context_text(rows(ls@), shown@, ls.len() as nat),
{
    let mut out: Vec<char> = Vec::new();
    let mut any = false;
    let mut j: usize = 0;
    while j < ls.len()
        invariant
            j <= ls.len(),
            ls.len() == shown.len(),
            out@ == context_text(rows(ls@), shown@, j as nat),
            any == any_shown(shown@, j as int),
        decreases ls.len() - j,
    {
        let ghost before = out@;
        if shown[j] {
            if j > 0 && !shown[j - 1] && any {
                push_str(&mut out, "...\n");
            } else {
                assert(out@ =~= before + Seq::<char>::empty());
            }
            push_all(&mut out, &ls[j]);
            out.push('\n');
            assert(rows(ls@)[j as int] == ls@[j as int]@);
            any = true;
            assert(shown@[j as int]);
        } else {
            assert(any_shown(shown@, j + 1) == any_shown(shown@, j as int)) by {
                if any_shown(shown@, j + 1) {
                    let k = choose|k: int| 0 <= k < j + 1 && k < shown@.len() && #[trigger] shown@[k];
                    assert(k < j);
                }
                if any_shown(shown@, j as int) {
                    let k = choose|k: int| 0 <= k < j && k < shown@.len() && #[trigger] shown@[k];
                    assert(k < j + 1);
                }
            }
        }
        j += 1;
    }
    out
}

/// Which of the lines the pattern matches.
pub open spec fn matches_of(ls: Seq<Seq<char>>, pattern: Seq<char>) -> Seq<bool> {
    ls.map_values(|l: Seq<char>| pattern_matches(pattern, l))
}

/// What `grep` prints of a text for a pattern: the matching lines, each with
/// `context` lines around it.
pub open spec fn grep_text(content: Seq<char>, pattern: Seq<char>, context: nat) -> Seq<char> {
    let ls = lines(content);
    context_text(ls, shown(matches_of(ls, pattern), context), ls.len())
}

/// A pattern that is no regular expression.
#[derive(Debug, Clone, PartialEq, Eq)]
pub struct PatternError {
    pub pattern: String,
}

/// Which of the lines a compiled regular expression matches.
pub open spec fn regex_matches_of(ls: Seq<Seq<char>>, re: regex_lite::Regex) -> Seq<bool> {
    ls.map_values(|l: Seq<char>| regex_matches(re, l))
}

/// Which of the lines a regular expression matches.
pub fn match_lines(re: &regex_lite::Regex, ls: &Vec<Vec<char>>) -> (r: Vec<bool>)
    ensures
        r@ == regex_matches_of(rows(ls@), *re),
{
    let mut r: Vec<bool> = Vec::new();
    let mut i: usize = 0;
    while i < ls.len()
        invariant
            i <= ls.len(),
            r@.len() == i,
            forall|j: int| 0 <= j < i ==> r@[j] == regex_matches(*re, #[trigger] rows(ls@)[j]),
        decreases ls.len() - i,
    {
        let line = string_of(&ls[i]);
        assert(rows(ls@)[i as int] == ls@[i as int]@);
        r.push(is_match(re, line.as_str()));
        i += 1;
    }
    assert(r@ =~= regex_matches_of(rows(ls@), *re));
    r
}

/// Filters `content` to the lines that match `pattern`, with `context`
/// lines around each. Fails where the pattern is no regular expression.
pub fn grep_with_context(content: &str, pattern: &str, context: usize) -> (r: Result<
    String,
    PatternError,
>)
    ensures
        match r {
            Ok(t) => pattern_is_valid(pattern@) && t@ == grep_text(
                content@,
                pattern@,
                context as nat,
            ),
            Err(e) => !pattern_is_valid(pattern@) && e.pattern@ == pattern@,
        },
{
    let re = match compile(pattern) {
        Ok(re) => re,
        Err(_) => {
            return Err(PatternError { pattern: string_of(&chars_of(pattern)) });
        },
    };
    let text = chars_of(content);
    let ls = lines_of(&text);
    let matched = match_lines(&re, &ls);
    assert(matched@ =~= matches_of(rows(ls@), pattern@));
    let shown = shown_lines(&matched, context);
    let out = render_context(&ls, &shown);
    Ok(string_of(&out))
}

/// Filters `content` to the lines that match `pattern`, with 2 lines of
/// context on each side.
pub fn grep_lines(content: &str, pattern: &str) -> (r: Result<String, PatternError>)
    ensures
        match r {
            Ok(t) => pattern_is_valid(pattern@) && t@ == grep_text(content@, pattern@, 2),
            Err(e) => !pattern_is_valid(pattern@) && e.pattern@ == pattern@,
        },
{
    grep_with_context(content, pattern, 2)
}

/// Why a document could not be read as asked.
#[derive(Debug, Clone, PartialEq, Eq)]
pub enum ReadError {
    /// No heading of the document matches the section asked for.
    SectionNotFound(String),
    /// The range of lines is none.
    Range(RangeError),
    /// The pattern is no regular expression.
    Pattern(PatternError),
}

/// The document after the section asked for was taken; an error where no
/// heading matches.
pub open spec fn after_section(content: Seq<char>, wanted: Option<String>) -> Option<Seq<char>> {
    match wanted {
        Some(s) => section(content, s@),
        None => Some(content),
    }
}

/// The text after the range of lines asked for was taken; `None` where the
/// range is none.
pub open spec fn after_lines(text: Seq<char>, wanted: Option<String>) -> Option<Seq<char>> {
    match wanted {
        Some(r) => match line_range(r@) {
            Ok(p) => Some(line_window(text, p.0, p.1)),
            Err(_) => None,
        },
        None => Some(text),
    }
}

/// The text after the lines that match the pattern asked for were taken;
/// `None` where the pattern is no regular expression.
pub open spec fn after_grep(text: Seq<char>, wanted: Option<String>) -> Option<Seq<char>> {
    match wanted {
        Some(p) => if pattern_is_valid(p@) {
            Some(grep_text(text, p@, 2))
        } else {
            None
        },
        None => Some(text),
    }
}

/// What reading a document prints: of its text first the section asked
/// for, of that the range of lines, of that the lines that match the
/// pattern; each step is left out where the arguments do not ask for it.
/// With it comes the estimate of the number of tokens, where the arguments
/// ask for one. The first step that fails gives the error.
pub fn read_document(content: &str, args: &ReadArgs) -> (r: Result<
    (String, Option<usize>),
    ReadError,
>)
    ensures
        match after_section(content@, args.section) {
            None => r matches Err(ReadError::SectionNotFound(s)) && s@ == args.section->0@,
            Some(a) => match after_lines(a, args.lines) {
                None => r matches Err(ReadError::Range(e)) && Err::<(nat, nat), RangeError>(e)
                    == line_range(args.lines->0@),
                Some(b) => match after_grep(b, args.grep) {
                    None => r matches Err(ReadError::Pattern(e)) && e.pattern@ == args.grep->0@,
                    Some(c) => r matches Ok(out) && out.0@ == c && (if args.tokens {
                        out.1 matches Some(n) && n == token_estimate(out.0@)
                    } else {
                        out.1 is None
                    }),
                },
            },
        },
{
    let mut output = string_of(&chars_of(content));
    match &args.section {
        Some(s) => match extract_section(output.as_str(), s.as_str()) {
            Some(t) => {
                output = t;
            },
            None => {
                return Err(ReadError::SectionNotFound(string_of(&chars_of(s.as_str()))));
            },
        },
        None => {},
    }
    match &args.lines {
        Some(range) => match parse_line_range(range.as_str()) {
            Ok(p) => {
                output = window(output.as_str(), p.0, p.1);
            },
            Err(e) => {
                return Err(ReadError::Range(e));
            },
        },
        None => {},
    }
    match &args.grep {
        Some(pattern) => match grep_lines(output.as_str(), pattern.as_str()) {
            Ok(t) => {
                output = t;
            },
            Err(e) => {
                return Err(ReadError::Pattern(e));
            },
        },
        None => {},
    }
    let tokens = if args.tokens {
        Some(estimate_tokens(output.as_str()))
    } else {
        None
    };
    Ok((output, tokens))
}

} // verus!
