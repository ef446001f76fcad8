use llmd::number::{decimal3_of, decimal_of, parse_bounded, parse_u32_of, sorted_numbers};
use llmd::paths::{
    extension_of, file_name_of, file_stem_of, join_paths, parent_path_of, without_extension_of,
};
use llmd::text::{
    char_is_letter, char_is_letter_or_digit, char_is_whitespace, chars_of, contains_of, find_in,
    find_last_in, first_piece_of, first_word_of, indent_width_of, join_of, lex_less_of, lines_of,
    second_piece_of, sorted_set, split_of, split_once_of, string_of, strip_of, strip_start_of,
    to_lower, trim_of, words_of, CharClass,
};
use std::path::Path;

fn chars(s: &str) -> Vec<char> {
    s.chars().collect()
}

fn text(v: &Vec<char>) -> String {
    v.iter().collect()
}

fn texts(v: &Vec<Vec<char>>) -> Vec<String> {
    v.iter().map(text).collect()
}

const SAMPLES: &[&str] = &[
    "",
    " ",
    "a",
    "\n",
    "\r\n",
    "a\n",
    "a\r\n",
    "a\r",
    "a\rb\n",
    "a\n\nb",
    "\n\na\n\n",
    "a\r\r\nb\r\n\rc",
    "  lead and trail \t",
    "\u{a0}nbsp\u{3000}",
    "\u{2003}em space\u{85}",
    "one,two,,three,",
    ",",
    "key: value: more",
    ":start",
    "end:",
    "##  Heading  ",
    "name: a name: b name:",
    "x```y```z",
    "tab\tseparated\twords",
    "  multiple   spaces   here  ",
    "\u{e9}t\u{e9} \u{c9}T\u{c9}",
    "--- \n---\n",
    "\"quoted\" 'single'",
];

#[test]
fn the_character_classes_agree_with_the_standard_library() {
    for n in 0..=0x10FFFFu32 {
        if let Some(c) = char::from_u32(n) {
            assert_eq!(char_is_whitespace(c), c.is_whitespace(), "whitespace {n:#x}");
            assert_eq!(char_is_letter(c), c.is_alphabetic(), "alphabetic {n:#x}");
            assert_eq!(char_is_letter_or_digit(c), c.is_alphanumeric(), "alphanumeric {n:#x}");
        }
    }
}

#[test]
fn chars_and_strings_convert_back_and_forth() {
    for s in SAMPLES {
        assert_eq!(chars_of(s), chars(s));
        assert_eq!(string_of(&chars(s)), *s);
    }
}

#[test]
fn lines_agree_with_the_standard_library() {
    for s in SAMPLES {
        let expected: Vec<String> = s.lines().map(|l| l.to_string()).collect();
        assert_eq!(texts(&lines_of(&chars(s))), expected, "lines of {s:?}");
    }
}

#[test]
fn trimming_agrees_with_the_standard_library() {
    for s in SAMPLES {
        let v = chars(s);
        assert_eq!(text(&trim_of(&v)), s.trim(), "trim {s:?}");
        assert_eq!(text(&strip_start_of(&v, CharClass::Whitespace)), s.trim_start());
        assert_eq!(text(&strip_of(&v, CharClass::Only('"'))), s.trim_matches('"'));
        assert_eq!(text(&strip_of(&v, CharClass::Only('#'))), s.trim_matches('#'));
        assert_eq!(text(&strip_start_of(&v, CharClass::Only('#'))), s.trim_start_matches('#'));
        assert_eq!(text(&strip_of(&v, CharClass::Only('\n'))), s.trim_matches('\n'));
        assert_eq!(
            indent_width_of(&v),
            (s.len() - s.trim_start().len()) as u128,
            "indentation of {s:?}"
        );
    }
}

#[test]
fn words_agree_with_the_standard_library() {
    for s in SAMPLES {
        let v = chars(s);
        let expected: Vec<String> = s.split_whitespace().map(|w| w.to_string()).collect();
        assert_eq!(texts(&words_of(&v)), expected, "words of {s:?}");
        assert_eq!(
            first_word_of(&v).map(|w| text(&w)),
            s.split_whitespace().next().map(|w| w.to_string())
        );
    }
}

#[test]
fn splitting_agrees_with_the_standard_library() {
    for s in SAMPLES {
        let v = chars(s);
        for c in [',', ':', '\n', ' '] {
            let expected: Vec<String> = s.split(c).map(|p| p.to_string()).collect();
            assert_eq!(texts(&split_of(&v, c)), expected, "split {s:?} at {c:?}");
            assert_eq!(
                split_once_of(&v, c).map(|(a, b)| (text(&a), text(&b))),
                s.split_once(c).map(|(a, b)| (a.to_string(), b.to_string()))
            );
        }
    }
}

#[test]
fn searching_agrees_with_the_standard_library() {
    let patterns = ["", "a", "\n", "---", "name:", "```", "\n---", "  ", ": ", "zz"];
    for s in SAMPLES {
        let v = chars(s);
        for p in patterns {
            let pat = chars(p);
            let at = |byte: usize| s[..byte].chars().count();
            assert_eq!(find_in(&v, &pat, 0), s.find(p).map(at), "find {p:?} in {s:?}");
            assert_eq!(find_last_in(&v, &pat), s.rfind(p).map(at), "rfind {p:?} in {s:?}");
            assert_eq!(contains_of(&v, &pat), s.contains(p));
            if !p.is_empty() {
                assert_eq!(text(&first_piece_of(&v, &pat)), s.split(p).next().unwrap());
                assert_eq!(
                    second_piece_of(&v, &pat).map(|x| text(&x)),
                    s.split(p).nth(1).map(|x| x.to_string()),
                    "second piece of {s:?} by {p:?}"
                );
            }
        }
    }
}

#[test]
fn joining_agrees_with_the_standard_library() {
    let parts: Vec<Vec<char>> = ["a", "", "b c"].iter().map(|s| chars(s)).collect();
    assert_eq!(text(&join_of(&parts, &chars(", "))), "a, , b c");
    assert_eq!(text(&join_of(&parts[..1].to_vec(), &chars(", "))), "a");
    assert_eq!(text(&join_of(&vec![], &chars(", "))), "");
}

#[test]
fn lowercase_agrees_with_the_standard_library() {
    for s in SAMPLES {
        assert_eq!(text(&to_lower(&chars(s))), s.to_lowercase());
    }
    assert_eq!(text(&to_lower(&chars("\u{1e9e}\u{3a3}A\u{3a3}"))), "\u{1e9e}\u{3a3}A\u{3a3}".to_lowercase());
}

#[test]
fn the_dictionary_order_agrees_with_the_order_of_strings() {
    for a in SAMPLES {
        for b in SAMPLES {
            assert_eq!(lex_less_of(&chars(a), &chars(b)), a < b, "{a:?} < {b:?}");
        }
    }
    let items: Vec<Vec<char>> = SAMPLES.iter().chain(SAMPLES.iter()).map(|s| chars(s)).collect();
    let mut expected: Vec<String> = SAMPLES.iter().map(|s| s.to_string()).collect();
    expected.sort();
    expected.dedup();
    assert_eq!(texts(&sorted_set(&items)), expected);
}

#[test]
fn numbers_are_read_as_the_standard_library_reads_them() {
    let inputs = [
        "", "0", "7", "007", "+7", "-7", "++7", "+", "-", " 7", "7 ", "4294967295", "4294967296",
        "99999999999999999999999", "12a", "a12", "1_000", "\u{ff17}", "0x10", "18446744073709551615",
        "18446744073709551616",
    ];
    for s in inputs {
        assert_eq!(parse_u32_of(&chars(s)), s.parse::<u32>().ok(), "u32 from {s:?}");
        assert_eq!(parse_bounded(&chars(s), u64::MAX), s.parse::<u64>().ok(), "u64 from {s:?}");
        assert_eq!(
            parse_bounded(&chars(s), 255),
            s.parse::<u8>().ok().map(u64::from),
            "u8 from {s:?}"
        );
    }
}

#[test]
fn numbers_are_written_as_the_standard_library_writes_them() {
    for n in [0u64, 1, 9, 10, 11, 99, 100, 101, 999, 1000, 4294967295, u64::MAX] {
        assert_eq!(text(&decimal_of(n)), n.to_string());
        assert_eq!(text(&decimal3_of(n)), format!("{n:03}"));
    }
    let mut v = vec![5u32, 3, 5, 0, u32::MAX, 1];
    let sorted = sorted_numbers(&v);
    v.sort();
    assert_eq!(sorted, v);
}

#[test]
fn paths_agree_with_the_standard_library() {
    let paths = [
        "a.md", "a", ".md", "a.", "a.b.c", "dir/a.md", "dir/.hidden", "dir.d/a", "/abs/x.tar.gz",
        "..", "x/..", "/", "a/b/c", "/a", "rel",
    ];
    for p in paths {
        let v = chars(p);
        let std = Path::new(p);
        if p != ".." && p != "x/.." && p != "/" {
            assert_eq!(
                text(&file_name_of(&v)),
                std.file_name().unwrap().to_str().unwrap(),
                "file name of {p:?}"
            );
            assert_eq!(
                text(&file_stem_of(&v)),
                std.file_stem().unwrap().to_str().unwrap(),
                "stem of {p:?}"
            );
            assert_eq!(
                text(&without_extension_of(&v)),
                std.with_extension("").to_str().unwrap(),
                "without extension {p:?}"
            );
        }
        assert_eq!(
            extension_of(&v).map(|e| text(&e)),
            std.extension().map(|e| e.to_str().unwrap().to_string()),
            "extension of {p:?}"
        );
        assert_eq!(
            parent_path_of(&v).map(|e| text(&e)),
            std.parent().map(|e| e.to_str().unwrap().to_string()),
            "parent of {p:?}"
        );
        assert_eq!(join_paths(p, "x.md"), std.join("x.md").to_str().unwrap(), "join {p:?}");
    }
    assert_eq!(join_paths("", "x.md"), "x.md");
}
