use llmd::commands::read::{
    grep_lines, grep_with_context, parse_line_range, render_context, resolve_file, shown_lines,
    PatternError, RangeError,
};
use llmd::commands::search::{render_results, search_document};
use llmd::commands::read::{read_document, ReadError};
use llmd::commands::search::{search_with, SearchArgs};

fn chars(s: &str) -> Vec<char> {
    s.chars().collect()
}

fn text(v: Vec<char>) -> String {
    v.into_iter().collect()
}

#[test]
fn parse_line_range_reads_start_and_end() {
    assert_eq!(parse_line_range("10:50"), Ok((10, 50)));
    assert_eq!(parse_line_range("1:1"), Ok((1, 1)));
    assert_eq!(parse_line_range("+2:+3"), Ok((2, 3)));
    assert_eq!(parse_line_range("007:8"), Ok((7, 8)));
}

#[test]
fn parse_line_range_names_each_error() {
    assert_eq!(parse_line_range("10"), Err(RangeError::Form));
    assert_eq!(parse_line_range(""), Err(RangeError::Form));
    assert_eq!(parse_line_range("a:5"), Err(RangeError::Start));
    assert_eq!(parse_line_range(":5"), Err(RangeError::Start));
    assert_eq!(parse_line_range(" 1:5"), Err(RangeError::Start));
    assert_eq!(parse_line_range("1:b"), Err(RangeError::End));
    assert_eq!(parse_line_range("1:2:3"), Err(RangeError::End));
    assert_eq!(parse_line_range("1:"), Err(RangeError::End));
    assert_eq!(parse_line_range("0:5"), Err(RangeError::ZeroStart));
    assert_eq!(parse_line_range("0:x"), Err(RangeError::End));
    assert_eq!(parse_line_range("6:5"), Err(RangeError::Reversed));
    assert_eq!(parse_line_range("99999999999999999999999999:5"), Err(RangeError::Start));
    assert_eq!(RangeError::Reversed.message(), "Start line must be <= end line");
    assert_eq!(
        RangeError::Form.message(),
        "Line range must be in the form START:END, e.g. --lines 10:50"
    );
}

#[test]
fn resolve_file_lists_the_places_in_order() {
    assert_eq!(
        resolve_file("/p/.llmd", "api"),
        vec!["/p/.llmd/api", "/p/.llmd/api.md", "/p/.llmd/imported/api"]
    );
    assert_eq!(
        resolve_file("/p/.llmd", "catme"),
        vec!["/p/.llmd/catme.md", "/p/.llmd/catme.md.md", "/p/.llmd/imported/catme.md"]
    );
}

#[test]
fn shown_lines_marks_the_context_of_each_match() {
    let m = vec![false, false, false, true, false, false, false, false, false, true];
    assert_eq!(
        shown_lines(&m, 2),
        vec![false, true, true, true, true, true, false, true, true, true]
    );
    assert_eq!(shown_lines(&m, 0), m);
    assert_eq!(shown_lines(&vec![false, false], 5), vec![false, false]);
    assert_eq!(shown_lines(&vec![true, false, false], usize::MAX), vec![true, true, true]);
    assert_eq!(shown_lines(&vec![], 2), Vec::<bool>::new());
}

#[test]
fn render_context_marks_the_gaps() {
    let ls: Vec<Vec<char>> = ["a", "b", "c", "d", "e"].iter().map(|s| chars(s)).collect();
    assert_eq!(text(render_context(&ls, &vec![true, false, true, true, false])), "a\n...\nc\nd\n");
    assert_eq!(text(render_context(&ls, &vec![false, false, true, false, true])), "c\n...\ne\n");
    assert_eq!(text(render_context(&ls, &vec![false; 5])), "");
    assert_eq!(text(render_context(&ls, &vec![true; 5])), "a\nb\nc\nd\ne\n");
}

#[test]
fn grep_lines_shows_two_lines_of_context() {
    let content = "a\nb\nmatch1\nc\nd\ne\nf\ng\nmatch2\nh";
    assert_eq!(
        grep_lines(content, "match"),
        Ok("a\nb\nmatch1\nc\nd\n...\nf\ng\nmatch2\nh\n".to_string())
    );
    assert_eq!(grep_lines(content, "^match\\d$"), grep_lines(content, "match"));
    assert_eq!(grep_lines(content, "zzz"), Ok(String::new()));
    assert_eq!(grep_lines("", "a"), Ok(String::new()));
    assert_eq!(grep_with_context(content, "^e$", 0), Ok("e\n".to_string()));
}

#[test]
fn grep_lines_refuses_what_is_no_pattern() {
    assert_eq!(grep_lines("a", "foo("), Err(PatternError { pattern: "foo(".to_string() }));
}

#[test]
fn grep_lines_uses_the_pattern_as_a_regular_expression() {
    assert_eq!(grep_with_context("cat\ncot\ncut", "c[ao]t", 0), Ok("cat\ncot\n".to_string()));
    assert_eq!(grep_with_context("cat\ncot\ncut", "c[ao]t$|^cu", 0), Ok("cat\ncot\ncut\n".to_string()));
}

#[test]
fn render_results_numbers_and_marks_the_lines() {
    let ls: Vec<Vec<char>> = ["x", "foo", "y", "z"].iter().map(|s| chars(s)).collect();
    let (out, count) =
        render_results(&ls, &vec![false, true, false, false], &vec![true, true, true, false]);
    assert_eq!(text(out), "       1: x\n  >    2: foo\n       3: y\n");
    assert_eq!(count, 1);
}

#[test]
fn search_document_counts_the_matches() {
    let mut content = String::new();
    for i in 1..=1200 {
        content.push_str(if i == 3 || i == 1100 { "needle\n" } else { "hay\n" });
    }
    let (out, count) = search_document(&content, "needle", 1).unwrap();
    assert_eq!(
        out,
        "       2: hay\n  >    3: needle\n       4: hay\n  ...\n    1099: hay\n  > 1100: needle\n    1101: hay\n"
    );
    assert_eq!(count, 2);
    assert_eq!(search_document("a\nb", "c", 2), Ok((String::new(), 0)));
    assert_eq!(search_document("a", "(", 2), Err(PatternError { pattern: "(".to_string() }));
}

fn read_args() -> llmd::commands::read::ReadArgs {
    llmd::commands::read::ReadArgs {
        file: "doc".to_string(),
        section: None,
        grep: None,
        lines: None,
        tokens: false,
    }
}

const DOC: &str = "# Doc\n## Setup\ninstall\nconfigure\nrun\n## Usage\nuse it\n";

#[test]
fn read_document_without_arguments_gives_the_text() {
    assert_eq!(read_document(DOC, &read_args()), Ok((DOC.to_string(), None)));
    let mut a = read_args();
    a.tokens = true;
    assert_eq!(read_document("12345", &a), Ok(("12345".to_string(), Some(2))));
}

#[test]
fn read_document_takes_section_then_lines_then_matches() {
    let mut a = read_args();
    a.section = Some("setup".to_string());
    assert_eq!(
        read_document(DOC, &a),
        Ok(("## Setup\ninstall\nconfigure\nrun".to_string(), None))
    );
    a.lines = Some("2:3".to_string());
    assert_eq!(read_document(DOC, &a), Ok(("install\nconfigure".to_string(), None)));
    a.grep = Some("^conf".to_string());
    a.tokens = true;
    assert_eq!(read_document(DOC, &a), Ok(("install\nconfigure\n".to_string(), Some(5))));
}

#[test]
fn read_document_reports_the_first_step_that_fails() {
    let mut a = read_args();
    a.section = Some("missing".to_string());
    a.lines = Some("bad".to_string());
    a.grep = Some("(".to_string());
    assert_eq!(read_document(DOC, &a), Err(ReadError::SectionNotFound("missing".to_string())));
    a.section = None;
    assert_eq!(read_document(DOC, &a), Err(ReadError::Range(RangeError::Form)));
    a.lines = Some("1:2".to_string());
    assert_eq!(
        read_document(DOC, &a),
        Err(ReadError::Pattern(PatternError { pattern: "(".to_string() }))
    );
}

#[test]
fn search_with_uses_the_query_and_the_context_of_the_arguments() {
    let args = SearchArgs { query: "b".to_string(), context: 0, dir: None };
    assert_eq!(search_with("a\nb\nc", &args), Ok(("  >    2: b\n".to_string(), 1)));
}
