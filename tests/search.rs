use file_finder::config::{parse_sort, Config, DestructureArgs, UsageError};
use file_finder::order::{sort_results, SortOrder};
use file_finder::search::{
    filter_file, no_recursive_search, recursive_search, walker, Entry, Listing, Matcher,
    SearchError,
};
use file_finder::text::{extension, split_on_commas};

fn config(keyword: &str, fuzzy: bool, case_sensitive: bool, exts: &[&str]) -> Config {
    Config {
        keyword: keyword.to_string(),
        recursive: false,
        fuzzy,
        case_sensitive,
        extensions: exts.iter().map(|s| s.to_string()).collect(),
        max_results: usize::MAX,
        sort: SortOrder::Unordered,
    }
}

fn file(dir: &str, name: &str) -> Entry {
    Entry { name: name.to_string(), path: format!("{}/{}", dir, name), listing: None }
}

fn dir(parent: &str, name: &str, entries: Vec<Entry>) -> Entry {
    Entry {
        name: name.to_string(),
        path: format!("{}/{}", parent, name),
        listing: Some(Listing { entries, failure: None }),
    }
}

fn listing(entries: Vec<Entry>) -> Listing {
    Listing { entries, failure: None }
}

fn passes(cfg: &Config, name: &str) -> bool {
    let m = Matcher::new(cfg).ok().unwrap();
    filter_file(name, cfg, &m)
}

fn args(keyword: &str) -> DestructureArgs {
    DestructureArgs::from_options(
        "root".to_string(),
        Some(keyword.to_string()),
        false,
        false,
        false,
        None,
        None,
        None,
        false,
    )
    .ok()
    .unwrap()
}

#[test]
fn fuzzy_ignores_case_by_default() {
    assert!(passes(&config("log", true, false, &[]), "MyLog.TXT"));
}

#[test]
fn fuzzy_case_sensitive_needs_same_case() {
    assert!(!passes(&config("log", true, true, &[]), "MyLog.txt"));
    assert!(passes(&config("Log", true, true, &[]), "MyLog.txt"));
}

#[test]
fn exact_mode_matches_whole_name_only() {
    let cfg = config("data.txt", false, false, &[]);
    assert!(passes(&cfg, "data.txt"));
    assert!(!passes(&cfg, "mydata.txt"));
    assert!(!passes(&cfg, "data.txt.bak"));
}

#[test]
fn exact_mode_alternation_is_anchored_as_a_whole() {
    let cfg = config("a|b", false, true, &[]);
    assert!(passes(&cfg, "a"));
    assert!(passes(&cfg, "b"));
    assert!(!passes(&cfg, "abc"));
}

#[test]
fn exact_mode_ignores_case_unless_asked() {
    assert!(passes(&config("DATA\\.txt", false, false, &[]), "data.TXT"));
    assert!(!passes(&config("DATA\\.txt", false, true, &[]), "data.TXT"));
    assert!(passes(&config(".*\\.rs", false, true, &[]), "main.rs"));
}

#[test]
fn malformed_pattern_is_an_error() {
    let cfg = config("foo(bar", false, false, &[]);
    assert!(matches!(Matcher::new(&cfg), Err(SearchError::InvalidPattern(_))));
    let r = walker(args("foo(bar"), &listing(vec![]));
    assert!(matches!(r, Err(SearchError::InvalidPattern(_))));
}

#[test]
fn malformed_pattern_is_fine_in_fuzzy_mode() {
    assert!(passes(&config("o(b", true, false, &[]), "foo(bar"));
}

#[test]
fn extension_filter_comes_first() {
    let cfg = config("", false, false, &["rs", "toml"]);
    assert!(passes(&cfg, "main.rs"));
    assert!(passes(&cfg, "Cargo.toml"));
    assert!(!passes(&cfg, "README.md"));
    assert!(!passes(&cfg, "main.RS"));
    assert!(!passes(&cfg, "Makefile"));
    let with_keyword = config("main", true, false, &["rs"]);
    assert!(!passes(&with_keyword, "main.c"));
}

#[test]
fn empty_extension_entry_allows_names_without_dot() {
    let cfg = config("", false, false, &["rs", ""]);
    assert!(passes(&cfg, "Makefile"));
    assert!(!passes(&cfg, "a.md"));
}

#[test]
fn extension_is_text_after_last_dot() {
    assert_eq!(extension("a.tar.gz"), "gz");
    assert_eq!(extension("Makefile"), "");
    assert_eq!(extension("trailing."), "");
    assert_eq!(extension(".bashrc"), "bashrc");
}

#[test]
fn commas_split_the_allow_list() {
    assert_eq!(split_on_commas("rs,toml"), vec!["rs".to_string(), "toml".to_string()]);
    assert_eq!(split_on_commas("rs,"), vec!["rs".to_string(), "".to_string()]);
    assert_eq!(split_on_commas(""), vec!["".to_string()]);
}

#[test]
fn empty_keyword_keeps_every_entry() {
    let root = listing(vec![file("r", "a.txt"), file("r", "b.md"), file("r", "c")]);
    let cfg = config("", false, false, &[]);
    let m = Matcher::new(&cfg).ok().unwrap();
    let r = no_recursive_search(&cfg, &m, &root).ok().unwrap();
    assert_eq!(r, vec!["r/a.txt", "r/b.md", "r/c"]);
}

#[test]
fn allow_list_keeps_only_listed_extensions() {
    let root = listing(vec![
        file("r", "a.txt"),
        file("r", "b.md"),
        dir("r", "sub", vec![file("r/sub", "c.md"), file("r/sub", "d.rs")]),
    ]);
    let mut cfg = config("", false, false, &["md"]);
    cfg.recursive = true;
    let m = Matcher::new(&cfg).ok().unwrap();
    let r = recursive_search(&cfg, &m, &root).ok().unwrap();
    assert_eq!(r, vec!["r/b.md", "r/sub/c.md"]);
}

#[test]
fn cap_of_two_over_five_files() {
    let root = listing((0..5).map(|i| file("r", &format!("f{}.log", i))).collect());
    let mut cfg = config("log", true, false, &[]);
    cfg.max_results = 2;
    let m = Matcher::new(&cfg).ok().unwrap();
    let r = no_recursive_search(&cfg, &m, &root).ok().unwrap();
    assert_eq!(r, vec!["r/f0.log", "r/f1.log"]);
}

#[test]
fn cap_of_zero_still_takes_the_first_entry() {
    let root = listing(vec![file("r", "a.log"), file("r", "b.log")]);
    let mut cfg = config("log", true, false, &[]);
    cfg.max_results = 0;
    let m = Matcher::new(&cfg).ok().unwrap();
    let r = no_recursive_search(&cfg, &m, &root).ok().unwrap();
    assert_eq!(r, vec!["r/a.log"]);
}

#[test]
fn cap_is_checked_after_a_whole_subtree() {
    let root = listing(vec![
        dir("r", "sub", vec![file("r/sub", "x.log"), file("r/sub", "y.log"), file("r/sub", "z.log")]),
        file("r", "a.log"),
    ]);
    let mut cfg = config("log", true, false, &[]);
    cfg.recursive = true;
    cfg.max_results = 2;
    let m = Matcher::new(&cfg).ok().unwrap();
    let r = recursive_search(&cfg, &m, &root).ok().unwrap();
    assert_eq!(r, vec!["r/sub/x.log", "r/sub/y.log"]);
}

#[test]
fn ascending_sort_twice_is_the_same() {
    let mut v = vec!["b".to_string(), "a".to_string(), "c".to_string(), "B".to_string()];
    sort_results(&mut v, SortOrder::Ascending);
    let once = v.clone();
    sort_results(&mut v, SortOrder::Ascending);
    assert_eq!(v, once);
    assert_eq!(v, vec!["B", "a", "b", "c"]);
}

#[test]
fn descending_and_unordered_sorts() {
    let mut v = vec!["b".to_string(), "a".to_string(), "c".to_string()];
    sort_results(&mut v, SortOrder::Descending);
    assert_eq!(v, vec!["c", "b", "a"]);
    let mut w = vec!["b".to_string(), "a".to_string()];
    sort_results(&mut w, SortOrder::Unordered);
    assert_eq!(w, vec!["b", "a"]);
}

#[test]
fn sort_mode_is_read_without_case() {
    assert_eq!(parse_sort("ASC"), SortOrder::Ascending);
    assert_eq!(parse_sort("Desc"), SortOrder::Descending);
    assert_eq!(parse_sort("name"), SortOrder::Unordered);
}

#[test]
fn recursion_reaches_subdirectories_first() {
    let root = listing(vec![
        dir("r", "sub", vec![file("r/sub", "note.txt")]),
        file("r", "note.md"),
    ]);
    let cfg = config("note", true, false, &[]);
    let m = Matcher::new(&cfg).ok().unwrap();
    assert_eq!(no_recursive_search(&cfg, &m, &root).ok().unwrap(), vec!["r/note.md"]);
    let mut deep = config("note", true, false, &[]);
    deep.recursive = true;
    assert_eq!(
        recursive_search(&deep, &m, &root).ok().unwrap(),
        vec!["r/sub/note.txt", "r/note.md"]
    );
}

#[test]
fn sort_applies_per_level() {
    let root = listing(vec![
        file("r", "b.log"),
        dir("r", "a", vec![file("r/a", "z.log"), file("r/a", "y.log")]),
    ]);
    let mut cfg = config("log", true, false, &[]);
    cfg.recursive = true;
    cfg.sort = SortOrder::Descending;
    let m = Matcher::new(&cfg).ok().unwrap();
    let r = recursive_search(&cfg, &m, &root).ok().unwrap();
    assert_eq!(r, vec!["r/b.log", "r/a/z.log", "r/a/y.log"]);
}

#[test]
fn unreadable_root_fails() {
    let root = Listing { entries: vec![], failure: Some("permission denied".to_string()) };
    let r = walker(args("x"), &root);
    match r {
        Err(SearchError::Unreadable(m)) => assert_eq!(m, "permission denied"),
        _ => panic!("expected a read failure"),
    }
}

#[test]
fn unreadable_subdirectory_fails_the_whole_search() {
    let bad = Entry {
        name: "locked".to_string(),
        path: "r/locked".to_string(),
        listing: Some(Listing { entries: vec![], failure: Some("denied".to_string()) }),
    };
    let root = listing(vec![file("r", "a.log"), bad]);
    let mut cfg = config("log", true, false, &[]);
    cfg.recursive = true;
    let m = Matcher::new(&cfg).ok().unwrap();
    let r = recursive_search(&cfg, &m, &root);
    assert!(matches!(r, Err(SearchError::Unreadable(_))));
    assert_eq!(r.err().unwrap().message(), "cannot read directory: denied");
}

#[test]
fn read_failure_after_cap_is_not_reached() {
    let root = Listing { entries: vec![file("r", "a.log")], failure: Some("io".to_string()) };
    let mut cfg = config("log", true, false, &[]);
    cfg.max_results = 1;
    let m = Matcher::new(&cfg).ok().unwrap();
    assert_eq!(no_recursive_search(&cfg, &m, &root).ok().unwrap(), vec!["r/a.log"]);
}

#[test]
fn empty_directory_gives_empty_result() {
    let r = walker(args(".*"), &listing(vec![])).ok().unwrap();
    assert!(r.is_empty());
}

#[test]
fn walker_applies_the_command_line_values() {
    let root = listing(vec![
        file("r", "b.rs"),
        file("r", "a.rs"),
        file("r", "c.md"),
        dir("r", "sub", vec![file("r/sub", "d.rs")]),
    ]);
    let a = DestructureArgs::from_options(
        "r".to_string(),
        Some("".to_string()),
        false,
        false,
        false,
        Some("rs".to_string()),
        None,
        Some("ASC".to_string()),
        false,
    )
    .ok()
    .unwrap();
    assert_eq!(walker(a, &root).ok().unwrap(), vec!["r/a.rs", "r/b.rs"]);
}

#[test]
fn missing_keyword_is_a_usage_error() {
    let r = DestructureArgs::from_options(
        ".".to_string(),
        None,
        false,
        false,
        false,
        None,
        None,
        None,
        false,
    );
    assert!(matches!(r, Err(UsageError::MissingKeyword)));
}

#[test]
fn defaults_fill_the_optional_values() {
    let a = args("k");
    assert_eq!(a.type_file, "");
    assert_eq!(a.number, usize::MAX);
    assert_eq!(a.sort, "name");
    let cfg = Config::from_args(&a);
    assert!(cfg.extensions.is_empty());
    assert_eq!(cfg.sort, SortOrder::Unordered);
}

#[test]
fn empty_keyword_recursive_lists_the_whole_tree() {
    let root = listing(vec![
        file("r", "a"),
        dir("r", "d", vec![file("r/d", "b"), dir("r/d", "e", vec![file("r/d/e", "c")])]),
    ]);
    let mut cfg = config("", false, false, &[]);
    cfg.recursive = true;
    let m = Matcher::new(&cfg).ok().unwrap();
    let r = recursive_search(&cfg, &m, &root).ok().unwrap();
    assert_eq!(r, vec!["r/a", "r/d/b", "r/d/e/c", "r/d/e", "r/d"]);
}

#[test]
fn invalid_pattern_message_names_the_problem() {
    let cfg = config("(", false, false, &[]);
    let e = Matcher::new(&cfg).err().unwrap();
    assert!(e.message().starts_with("invalid pattern: "));
    assert!(e.message().len() > "invalid pattern: ".len());
}
