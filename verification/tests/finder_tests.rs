use nimbuscli::cache::{Cache, CacheEntry};
use nimbuscli::finder::{
    content_hits, default_folder, valid_commands_set, CacheConsult, CliArgs, FzFinder,
    IgnoreRefusal, MatchItem, Plan, Search, Step, WalkEntry, MAX_CONTENT_HITS,
};

fn finder(folder: &str, name: &str, ext: Option<&str>) -> FzFinder {
    FzFinder {
        folder_name: folder.to_string(),
        file_name: name.to_string(),
        file_ext: ext.map(|e| e.to_string()),
        limit: Some(10),
        content: None,
        ignore: None,
        max: None,
        min: None,
        json: false,
    }
}

fn entry(path: &str, name: &str, is_file: bool, size: u64) -> WalkEntry {
    WalkEntry { path: path.to_string(), name: Some(name.to_string()), is_file, size }
}

fn item(sub: usize, subseq: usize, path: &str) -> MatchItem {
    MatchItem {
        substring_len: sub,
        subsequence_len: subseq,
        file_name: path.rsplit('/').next().unwrap().to_string(),
        path: path.to_string(),
    }
}

#[test]
fn cli_args_become_a_finder() {
    let cli = CliArgs {
        folder_name: "/home".to_string(),
        file_name: "cargo".to_string(),
        extension: Some(".toml".to_string()),
        limit: Some(10),
        content: None,
        ignore: Some(".lock".to_string()),
        max: Some("1mb".to_string()),
        min: None,
        json: true,
    };
    let f: FzFinder = cli.into();
    assert_eq!(f.file_name, "cargo");
    assert_eq!(f.file_ext, Some(".toml".to_string()));
    assert_eq!(f.ignore, Some(".lock".to_string()));
    assert_eq!(f.max, Some("1mb".to_string()));
    assert_eq!(f.limit, Some(10));
    assert!(f.json);
}

#[test]
fn ignored_name_is_refused() {
    let mut f = finder("/home", "multipurposecli.txt", None);
    f.ignore = Some(".txt".to_string());
    assert!(matches!(f.ignore_refusal(), Some(IgnoreRefusal::NameIgnored)));
    f.file_ext = Some(".txt".to_string());
    assert!(matches!(f.ignore_refusal(), Some(IgnoreRefusal::ExtensionIgnored)));
    f.file_name = "notes.txt   ".to_string();
    assert!(f.ignore_refusal().is_some());
    f.file_name = "notes.md".to_string();
    assert!(f.ignore_refusal().is_none());
    f.file_name = String::new();
    assert!(f.ignore_refusal().is_none());
}

#[test]
fn folder_only_requests() {
    assert!(finder("CLionProjects", "", None).is_folder_only());
    assert!(finder("CLionProjects", "", Some("")).is_folder_only());
    assert!(!finder("CLionProjects", "", Some(".txt")).is_folder_only());
    assert!(!finder("/home", "", None).is_folder_only());
    assert!(!finder("/home/", "", None).is_folder_only());
    assert!(finder("/home/", "", None).searches_home());
}

#[test]
fn cache_is_used_only_with_name_ignore_and_extension() {
    let mut f = finder("/home", "report", Some(".pdf"));
    assert!(!f.uses_cache());
    f.ignore = Some(".tmp".to_string());
    assert!(f.uses_cache());
    f.ignore = Some(".pdf".to_string());
    assert!(!f.uses_cache());
    f.ignore = Some("port".to_string());
    assert!(!f.uses_cache());
}

#[test]
fn size_filter_validity() {
    let mut f = finder("/home", "x", None);
    assert!(f.size_filter_parses());
    f.min = Some("nonsense".to_string());
    assert!(!f.size_filter_parses());
    f.max = Some("10kb".to_string());
    assert!(f.size_filter_parses());
    assert!(f.needs_size(true));
    assert!(!f.needs_size(false));
}

#[test]
fn exact_name_ends_the_walk() {
    let f = finder("/home", "Cargo.toml", None);
    let mut s = Search::new();
    let step = s.step(&f, &entry("/home/me/p/cargo.toml", "cargo.toml", true, 10));
    assert!(matches!(step, Step::Found(ref p) if p == "/home/me/p/cargo.toml"));
}

#[test]
fn exact_name_with_wrong_extension_goes_on() {
    let f = finder("/home", "notes", Some(".txt"));
    let mut s = Search::new();
    let step = s.step(&f, &entry("/home/notes", "notes", false, 0));
    assert!(matches!(step, Step::Continue));
    assert!(s.heap.is_empty());
}

#[test]
fn extension_filters_named_search() {
    let f = finder("/home", "readme", Some(".txt"));
    let mut s = Search::new();
    s.step(&f, &entry("/home/readme.md", "readme.md", true, 1));
    s.step(&f, &entry("/home/readme.TXT", "readme.TXT", true, 1));
    s.step(&f, &entry("/home/notes.txt", "notes.txt", true, 1));
    assert_eq!(s.heap.len(), 2);
    let top = s.finish(Some(10));
    assert_eq!(top[0], "/home/readme.TXT");
    assert!(!top.contains(&"/home/readme.md".to_string()));
}

#[test]
fn names_are_kept_once() {
    let f = finder("/home", "readme", None);
    let mut s = Search::new();
    s.step(&f, &entry("/home/a/readme.md", "readme.md", true, 1));
    s.step(&f, &entry("/home/b/readme.md", "readme.md", true, 1));
    s.step(&f, &entry("/home/b/license", "license", true, 1));
    assert_eq!(s.heap.len(), 2);
    assert_eq!(s.seen, vec!["readme.md".to_string(), "license".to_string()]);
    assert_eq!(s.heap[0].substring_len, 6);
    assert_eq!(s.heap[0].subsequence_len, 6);
    assert_eq!(s.heap[0].path, "/home/a/readme.md");
}

#[test]
fn extension_only_search_lists_matching_files() {
    let f = finder("/home", "", Some(".TXT"));
    let mut s = Search::new();
    s.step(&f, &entry("/home/a.txt", "a.txt", true, 1));
    s.step(&f, &entry("/home/b.md", "b.md", true, 1));
    s.step(&f, &entry("/home/c.txt", "c.txt", true, 1));
    assert_eq!(s.heap.len(), 2);
    assert!(s.seen.is_empty());
}

#[test]
fn size_bounds_skip_files() {
    let mut f = finder("/home", "log", None);
    f.max = Some("1kb".to_string());
    let mut s = Search::new();
    assert!(matches!(s.step(&f, &entry("/home/big.log", "big.log", true, 2048)), Step::Continue));
    assert!(s.heap.is_empty());
    s.step(&f, &entry("/home/small.log", "small.log", true, 1024));
    assert_eq!(s.heap.len(), 1);
    // the maximum takes precedence: the minimum is not looked at
    f.min = Some("10mb".to_string());
    s.step(&f, &entry("/home/tiny.log", "tiny.log", true, 3));
    assert_eq!(s.heap.len(), 2);
    // directories are not filtered by size
    let mut g = finder("/home", "log", None);
    g.min = Some("10kb".to_string());
    let mut t = Search::new();
    t.step(&g, &entry("/home/logs", "logs", false, 0));
    t.step(&g, &entry("/home/x.log", "x.log", true, 5));
    assert_eq!(t.heap.len(), 1);
}

#[test]
fn unnamed_entries_are_skipped() {
    let f = finder("/home", "x", None);
    let mut s = Search::new();
    let e = WalkEntry { path: "/".to_string(), name: None, is_file: false, size: 0 };
    assert!(matches!(s.step(&f, &e), Step::Continue));
    assert!(s.heap.is_empty());
}

#[test]
fn content_search_reads_every_file_passing_the_filter() {
    let mut f = finder("/home", "", Some(".rs"));
    f.content = Some("TODO".to_string());
    let mut s = Search::new();
    assert!(matches!(s.step(&f, &entry("/home/src", "src", false, 0)), Step::Continue));
    assert!(matches!(s.step(&f, &entry("/home/notes.txt", "notes.txt", true, 0)), Step::Continue));
    assert!(matches!(s.step(&f, &entry("/home/a.rs", "a.rs", true, 0)), Step::SearchContent));
    assert!(matches!(s.step(&f, &entry("/home/b.RS", "b.RS", true, 0)), Step::SearchContent));
    assert!(s.heap.is_empty());
    let mut g = finder("/home", "", None);
    g.content = Some("x".to_string());
    assert!(matches!(s.step(&g, &entry("/home/any", "any", true, 0)), Step::SearchContent));
}

#[test]
fn scores() {
    assert_eq!(item(0, 0, "/a/b").path_depth(), 15);
    assert_eq!(item(0, 0, "/a/b/c/d").path_depth(), 10);
    assert_eq!(item(0, 0, "/a/b/c/d/e/f").path_depth(), 5);
    assert_eq!(item(0, 0, "/a/b/c/d/e/f/g/h").path_depth(), 0);
    assert_eq!(item(0, 0, "/home/me/src/x").folder_names(), 20);
    assert_eq!(item(0, 0, "/home/me/node_modules/src/x").folder_names(), 0);
    assert_eq!(item(0, 0, "/home/me/target/x").folder_names(), -20);
    assert_eq!(item(0, 0, "/home/me/other").folder_names(), 0);
    assert_eq!(item(3, 4, "/x/notes.txt").calculate_score(), 30 + 4 + 20 + 15);
}

#[test]
fn ranking_best_first_up_to_limit() {
    let mut s = Search::new();
    s.heap.push(item(1, 1, "/a/b/c/d/e/f/g/h/low"));
    s.heap.push(item(5, 5, "/a/b/c/d/e/f/g/h/high"));
    s.heap.push(item(3, 3, "/a/b/c/d/e/f/g/h/mid"));
    assert_eq!(
        s.finish(Some(2)),
        vec!["/a/b/c/d/e/f/g/h/high".to_string(), "/a/b/c/d/e/f/g/h/mid".to_string()]
    );
    assert_eq!(s.finish(Some(10)).len(), 3);
    assert_eq!(s.finish(Some(0)), vec!["/a/b/c/d/e/f/g/h/high".to_string()]);
}

#[test]
fn ranking_of_nothing_is_empty() {
    let s = Search::new();
    assert!(s.finish(Some(10)).is_empty());
    assert!(s.finish(None).is_empty());
}

#[test]
fn content_lines_are_numbered_and_capped() {
    let hits = content_hits("first TODO\nnothing\r\nsecond TODO\r\n", "TODO");
    assert_eq!(hits, vec![(1, "first TODO".to_string()), (3, "second TODO".to_string())]);
    let many: String = (0..40).map(|i| format!("TODO {}\n", i)).collect();
    let hits = content_hits(&many, "TODO");
    assert_eq!(hits.len(), MAX_CONTENT_HITS);
    assert_eq!(hits[14], (15, "TODO 14".to_string()));
    assert!(content_hits("", "x").is_empty());
}

#[test]
fn valid_commands_are_listed() {
    let cmds = valid_commands_set();
    assert_eq!(cmds.len(), 6);
    assert!(cmds[0].contains("--file-name"));
    assert!(cmds[5].contains("--extension"));
}

#[test]
fn home_is_recognised_by_path_components() {
    assert!(finder("/home", "", None).searches_home());
    assert!(finder("//home", "", None).searches_home());
    assert!(!finder("/home/me", "", None).searches_home());
    assert!(!finder("home", "", None).searches_home());
}

#[test]
fn plan_checks_in_order() {
    let mut f = finder("projects", "notes.txt", None);
    f.ignore = Some(".txt".to_string());
    assert!(matches!(f.plan(), Plan::Refused(IgnoreRefusal::NameIgnored)));
    assert!(matches!(finder("projects", "", None).plan(), Plan::ListCommands));
    assert!(matches!(finder("projects", "x", None).plan(), Plan::Walk));
    assert!(matches!(finder("/home", "", None).plan(), Plan::Walk));
    assert_eq!(default_folder(), "/home");
}

#[test]
fn cache_is_consulted_and_filled() {
    let mut f = finder("/home", "report", Some(".pdf"));
    let mut c = Cache::new();
    assert!(matches!(f.consult_cache(&mut c, "/home/me".to_string(), 10), CacheConsult::Skipped));
    assert_eq!(c.len(), 0);
    f.ignore = Some(".tmp".to_string());
    assert!(matches!(f.consult_cache(&mut c, "/home/me".to_string(), 10), CacheConsult::Stored));
    assert_eq!(c.get_value_at(&"report".to_string(), 11), Some("/home/me".to_string()));
    assert!(matches!(f.consult_cache(&mut c, "/home/other".to_string(), 20), CacheConsult::Hit));
    assert_eq!(c.read_count(&"report".to_string()), Some(2));
    c.load_entries(vec![("keep".to_string(), CacheEntry::new("k".to_string(), 1000, 0))]);
    match f.consult_cache(&mut c, "/home/new".to_string(), 500) {
        CacheConsult::ExpiredThenStored(left) => {
            assert_eq!(left.len(), 1);
            assert_eq!(left[0].0, "keep");
        }
        _ => panic!("expected the entry to have expired"),
    }
    assert_eq!(c.get_value_at(&"report".to_string(), 501), Some("/home/new".to_string()));
}

#[test]
fn content_search_still_matches_folders_by_name() {
    let mut f = finder("/home", "notes", None);
    f.content = Some("TODO".to_string());
    let mut s = Search::new();
    assert!(matches!(s.step(&f, &entry("/home/my-notes", "my-notes", false, 0)), Step::Continue));
    assert_eq!(s.heap.len(), 1);
    assert!(matches!(s.step(&f, &entry("/home/a.txt", "a.txt", true, 0)), Step::SearchContent));
    assert_eq!(s.heap.len(), 1);
    let step = s.step(&f, &entry("/home/Notes", "Notes", false, 0));
    assert!(matches!(step, Step::Found(ref p) if p == "/home/Notes"));
}
