use llmd::issues::file_ops::{
    config_path, file_id, file_name_for, load_all_issues, now_iso, resolve_issue_path, write_issue,
};
use llmd::issues::frontmatter::parse_issue;
use llmd::llmd_dir::{catme_path, find, issues_path, search_path};

fn names(v: &[&str]) -> Vec<String> {
    v.iter().map(|s| s.to_string()).collect()
}

#[test]
fn config_path_is_inside_the_issues_directory() {
    assert_eq!(config_path("/p/.llmd/issues"), "/p/.llmd/issues/config.json");
    assert_eq!(config_path("issues/"), "issues/config.json");
    assert_eq!(config_path(""), "config.json");
}

#[test]
fn catme_and_issues_paths_are_inside_the_llmd_directory() {
    assert_eq!(catme_path("/p/.llmd"), "/p/.llmd/catme.md");
    assert_eq!(issues_path("/p/.llmd"), "/p/.llmd/issues");
}

#[test]
fn search_path_goes_upward_from_the_start() {
    assert_eq!(search_path("/a/b/c"), names(&["/a/b/c/.llmd", "/a/b/.llmd", "/a/.llmd", "/.llmd"]));
    assert_eq!(search_path("/"), names(&["/.llmd"]));
    assert_eq!(search_path("x/y"), names(&["x/y/.llmd", "x/.llmd", ".llmd"]));
}

#[test]
fn find_takes_the_nearest_directory_that_exists() {
    assert_eq!(find("/a/b/c", &vec![false, true, true, false]), Some("/a/b/.llmd".to_string()));
    assert_eq!(find("/a/b/c", &vec![true]), Some("/a/b/c/.llmd".to_string()));
    assert_eq!(find("/a/b/c", &vec![false, false, false, false]), None);
    assert_eq!(find("/a/b/c", &vec![]), None);
    assert_eq!(find("/a", &vec![false, false, true]), None);
}

#[test]
fn file_id_reads_the_number_before_the_first_hyphen() {
    assert_eq!(file_id("007-fix-the-parser.md"), Some(7));
    assert_eq!(file_id("/p/.llmd/issues/012-a.md"), Some(12));
    assert_eq!(file_id("1234-long.md"), Some(1234));
    assert_eq!(file_id("12.md"), Some(12));
    assert_eq!(file_id("config.json"), None);
    assert_eq!(file_id("abc-def.md"), None);
    assert_eq!(file_id("-1-x.md"), None);
    assert_eq!(file_id("007-x.txt"), None);
    assert_eq!(file_id("007-x"), None);
    assert_eq!(file_id(".md"), None);
}

#[test]
fn file_name_for_pads_the_id_to_three_digits() {
    assert_eq!(file_name_for(7, "fix"), "007-fix.md");
    assert_eq!(file_name_for(42, "a-b"), "042-a-b.md");
    assert_eq!(file_name_for(123, "x"), "123-x.md");
    assert_eq!(file_name_for(4567, "x"), "4567-x.md");
    assert_eq!(file_name_for(0, ""), "000-.md");
}

#[test]
fn load_all_issues_skips_what_is_no_issue_file() {
    let files = vec![
        ("001-first.md".to_string(), "---\ntitle: First\n---\n".to_string()),
        ("config.json".to_string(), "{\"next_id\": 4}".to_string()),
        ("002-broken.md".to_string(), "no frontmatter".to_string()),
        ("notes.md".to_string(), "---\ntitle: Notes\n---\n".to_string()),
        ("003-third.md".to_string(), "---\ntitle: Third\nstatus: closed\n---\nbody".to_string()),
    ];
    let store = load_all_issues(&files);
    assert_eq!(store.len(), 2);
    assert_eq!(store[&1].title, "First");
    assert_eq!(store[&1].id, 1);
    assert_eq!(store[&3].status, "closed");
    assert_eq!(store[&3].id, 3);
    assert!(!store.contains_key(&2));
}

#[test]
fn load_all_issues_lets_a_later_file_replace_an_earlier_one() {
    let files = vec![
        ("005-a.md".to_string(), "---\ntitle: A\n---\n".to_string()),
        ("005-b.md".to_string(), "---\ntitle: B\n---\n".to_string()),
    ];
    let store = load_all_issues(&files);
    assert_eq!(store.len(), 1);
    assert_eq!(store[&5].title, "B");
}

#[test]
fn resolve_issue_path_matches_an_id_or_a_slug() {
    let files = names(&["config.json", "001-alpha.md", "002-beta-test.md", "010-gamma.md", "notes.md"]);
    assert_eq!(resolve_issue_path(&files, "2"), Some(2));
    assert_eq!(resolve_issue_path(&files, "002"), Some(2));
    assert_eq!(resolve_issue_path(&files, "10"), Some(3));
    assert_eq!(resolve_issue_path(&files, "alpha"), Some(1));
    assert_eq!(resolve_issue_path(&files, "beta-test"), Some(2));
    assert_eq!(resolve_issue_path(&files, "test"), Some(2));
    assert_eq!(resolve_issue_path(&files, "notes"), Some(4));
    assert_eq!(resolve_issue_path(&files, "010-gamma"), Some(3));
    assert_eq!(resolve_issue_path(&files, "3"), None);
    assert_eq!(resolve_issue_path(&files, "config"), None);
    assert_eq!(resolve_issue_path(&files, "delta"), None);
}

#[test]
fn resolve_issue_path_takes_the_first_match_in_the_given_order() {
    let files = names(&["003-x-fix.md", "004-fix.md"]);
    assert_eq!(resolve_issue_path(&files, "fix"), Some(0));
    let files = names(&["004-fix.md", "003-x-fix.md"]);
    assert_eq!(resolve_issue_path(&files, "fix"), Some(0));
    assert_eq!(resolve_issue_path(&files, "3"), Some(1));
}

#[test]
fn write_issue_names_the_file_by_id_and_slug() {
    let issue = parse_issue("---\ntitle: Some Thing\n---\nbody", 9).unwrap();
    let (name, text) = write_issue(&issue);
    assert_eq!(name, "009-some-thing.md");
    assert!(text.starts_with("---\nid: 9\ntitle: \"Some Thing\"\nslug: \"some-thing\"\n"));
    assert!(text.ends_with("---\n\nbody\n"));
}

#[test]
fn now_iso_gives_a_timestamp() {
    let now = now_iso();
    assert_eq!(now.len(), 24);
    assert_eq!(&now[4..5], "-");
    assert_eq!(&now[10..11], "T");
    assert!(now.ends_with('Z'));
}

#[test]
fn the_name_of_a_file_gives_the_id_back() {
    for id in [0u32, 1, 9, 10, 99, 100, 999, 1000, 65535, u32::MAX] {
        for slug in ["fix", "a-b-c", "", "v1.2-notes", "007-bond"] {
            let name = file_name_for(id, slug);
            assert_eq!(file_id(&name), Some(id), "{name}");
            assert_eq!(resolve_issue_path(&vec![name.clone()], &id.to_string()), Some(0));
        }
    }
}
