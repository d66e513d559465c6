use tree_for_ai::discovery::DiscoveryMode;
use tree_for_ai::filter::FilterOptions;
use tree_for_ai::listing::{listing_lines, merge_listings};
use tree_for_ai::order::{compare_names, Order};
use tree_for_ai::path::FilePath;
use tree_for_ai::path_order::compare_paths;
use tree_for_ai::render::{join_lines, render_tree_text, spaces_string, INDENT_SPACES};
use tree_for_ai::report::{end_with_newline, header, render_report, Report};
use tree_for_ai::selection::select_files;
use tree_for_ai::sorting::{file_before, sort_files};
use tree_for_ai::tree::{build_tree, TreeNode};

fn parts(text: &str) -> FilePath {
    FilePath::new(text.split('/').filter(|c| !c.is_empty()).map(|c| c.to_string()).collect())
}

fn abs(text: &str) -> FilePath {
    let mut components = vec!["/".to_string()];
    components.extend(text.split('/').filter(|c| !c.is_empty()).map(|c| c.to_string()));
    FilePath::new(components)
}

fn texts(paths: &Vec<FilePath>) -> Vec<String> {
    paths.iter().map(|p| p.components.join("/")).collect()
}

fn project() -> Vec<FilePath> {
    vec![abs("work/proj/src/main.rs"), abs("work/proj/README.md"), abs("work/proj/.env")]
}

fn options(include_assets: bool, include_binaries: bool, hide_secrets: bool) -> FilterOptions {
    FilterOptions { include_assets, include_binaries, hide_secrets, include_ignored: false }
}

fn defaults() -> FilterOptions {
    options(false, false, false)
}

#[test]
fn new_node_is_empty() {
    let n = TreeNode::new("proj".to_string());
    assert_eq!(n.name, "proj");
    assert!(n.dirs.is_empty());
    assert!(n.files.is_empty());
}

#[test]
fn build_nests_directories_and_files() {
    let tree = build_tree(&project(), &abs("work/proj"), "/work/proj", None);
    assert_eq!(tree.name, "proj");
    assert_eq!(tree.files, vec!["README.md".to_string(), ".env".to_string()]);
    assert_eq!(tree.dirs.len(), 1);
    assert_eq!(tree.dirs[0].name, "src");
    assert_eq!(tree.dirs[0].files, vec!["main.rs".to_string()]);
    assert!(tree.dirs[0].dirs.is_empty());
}

#[test]
fn build_keeps_directories_in_name_order() {
    let paths = vec![parts("b/x.rs"), parts("a/y.rs"), parts("B/z.rs"), parts("a/w.rs")];
    let tree = build_tree(&paths, &FilePath::new(vec![]), ".", None);
    let names: Vec<&str> = tree.dirs.iter().map(|d| d.name.as_str()).collect();
    assert_eq!(names, vec!["B", "a", "b"]);
    assert_eq!(tree.dirs[1].files, vec!["y.rs".to_string(), "w.rs".to_string()]);
}

#[test]
fn build_takes_paths_outside_the_root_whole() {
    let paths = vec![abs("other/x.rs")];
    let tree = build_tree(&paths, &abs("work/proj"), "/work/proj", None);
    assert_eq!(tree.dirs.len(), 1);
    assert_eq!(tree.dirs[0].name, "/");
    assert_eq!(tree.dirs[0].dirs[0].name, "other");
    assert_eq!(tree.dirs[0].dirs[0].files, vec!["x.rs".to_string()]);
}

#[test]
fn build_ignores_the_root_itself() {
    let paths = vec![abs("work/proj")];
    let tree = build_tree(&paths, &abs("work/proj"), "/work/proj", None);
    assert!(tree.dirs.is_empty());
    assert!(tree.files.is_empty());
}

#[test]
fn build_names_a_root_without_base_name_by_its_text() {
    let tree = build_tree(&vec![abs("a.rs")], &abs(""), "/", None);
    assert_eq!(tree.name, "/");
    assert_eq!(tree.files, vec!["a.rs".to_string()]);
}

#[test]
fn build_keeps_file_and_directory_of_one_name_apart() {
    let paths = vec![parts("x"), parts("x/y.rs")];
    let tree = build_tree(&paths, &FilePath::new(vec![]), "r", None);
    assert_eq!(tree.name, "r");
    assert_eq!(tree.files, vec!["x".to_string()]);
    assert_eq!(tree.dirs[0].name, "x");
}

#[test]
fn depth_limit_cuts_files_and_directories() {
    let paths = vec![parts("a/b/c/d.rs"), parts("a/b/e.rs"), parts("a/f.rs"), parts("g.rs")];
    let root = FilePath::new(vec![]);
    let tree = build_tree(&paths, &root, "r", Some(2));
    assert_eq!(tree.files, vec!["g.rs".to_string()]);
    assert_eq!(tree.dirs[0].name, "a");
    assert_eq!(tree.dirs[0].files, vec!["f.rs".to_string()]);
    assert_eq!(tree.dirs[0].dirs[0].name, "b");
    assert!(tree.dirs[0].dirs[0].files.is_empty());
    assert!(tree.dirs[0].dirs[0].dirs.is_empty());
    let none = build_tree(&paths, &root, "r", Some(0));
    assert!(none.files.is_empty());
    assert!(none.dirs.is_empty());
}

#[test]
fn insert_enters_no_more_levels_than_the_budget() {
    let mut n = TreeNode::new("r".to_string());
    n.insert(&parts("skip/a/b.rs"), 1, Some(1));
    assert_eq!(n.dirs.len(), 1);
    assert_eq!(n.dirs[0].name, "a");
    assert!(n.dirs[0].files.is_empty());
    n.insert(&parts("skip/a/b.rs"), 1, Some(2));
    assert_eq!(n.dirs.len(), 1);
    assert_eq!(n.dirs[0].files, vec!["b.rs".to_string()]);
    n.insert(&parts("skip"), 1, None);
    assert!(n.files.is_empty());
}

#[test]
fn render_lists_directories_then_files() {
    let mut tree = build_tree(&project(), &abs("work/proj"), "/work/proj", None);
    let text = render_tree_text(&mut tree, INDENT_SPACES, None);
    assert_eq!(text, "proj/\n     src/\n          main.rs\n     .env\n     README.md");
}

#[test]
fn render_with_depth_one_shows_empty_directory() {
    let mut tree = build_tree(&project(), &abs("work/proj"), "/work/proj", Some(1));
    let text = render_tree_text(&mut tree, INDENT_SPACES, Some(1));
    assert_eq!(text, "proj/\n     src/\n     .env\n     README.md");
}

#[test]
fn render_limit_hides_content_of_a_full_tree() {
    let paths = vec![parts("a/b/c.rs"), parts("a/d.rs"), parts("e.rs")];
    let root = FilePath::new(vec![]);
    let mut tree = build_tree(&paths, &root, "r", None);
    assert_eq!(render_tree_text(&mut tree, 2, Some(2)), "r/\n  a/\n    b/\n    d.rs\n  e.rs");
    assert_eq!(render_tree_text(&mut tree, 2, Some(1)), "r/\n  a/\n  e.rs");
    assert_eq!(render_tree_text(&mut tree, 2, Some(0)), "r/\n  a/\n  e.rs");
    assert_eq!(
        render_tree_text(&mut tree, 2, None),
        "r/\n  a/\n    b/\n      c.rs\n    d.rs\n  e.rs"
    );
}

#[test]
fn render_indents_by_the_width_times_the_depth() {
    let mut tree = build_tree(&vec![parts("a/b/c.rs")], &FilePath::new(vec![]), "r", None);
    assert_eq!(render_tree_text(&mut tree, 3, None), "r/\n   a/\n      b/\n         c.rs");
    assert_eq!(render_tree_text(&mut tree, 0, None), "r/\na/\nb/\nc.rs");
    assert_eq!(INDENT_SPACES, 5);
}

#[test]
fn render_of_an_empty_tree_is_the_root_line() {
    let mut tree = TreeNode::new("proj".to_string());
    assert_eq!(render_tree_text(&mut tree, 5, None), "proj/");
}

#[test]
fn render_sorts_directories_by_bytes_and_files_without_case() {
    let paths = vec![
        parts("b.txt"),
        parts("Zeta/x.rs"),
        parts("A.txt"),
        parts("alpha/y.rs"),
        parts("a.txt"),
        parts("C.txt"),
    ];
    let mut tree = build_tree(&paths, &FilePath::new(vec![]), "r", None);
    assert_eq!(
        render_tree_text(&mut tree, 1, None),
        "r/\n Zeta/\n  x.rs\n alpha/\n  y.rs\n A.txt\n a.txt\n b.txt\n C.txt"
    );
    assert_eq!(tree.files, vec!["A.txt", "a.txt", "b.txt", "C.txt"]);
}

#[test]
fn render_leaves_hidden_directories_unsorted() {
    let paths = vec![parts("a/z.rs"), parts("a/b.rs")];
    let mut tree = build_tree(&paths, &FilePath::new(vec![]), "r", None);
    render_tree_text(&mut tree, 1, Some(1));
    assert_eq!(tree.dirs[0].files, vec!["z.rs", "b.rs"]);
    render_tree_text(&mut tree, 1, Some(2));
    assert_eq!(tree.dirs[0].files, vec!["b.rs", "z.rs"]);
}

#[test]
fn build_does_not_depend_on_input_order() {
    let one = vec![parts("a/b.rs"), parts("c.rs"), parts("a/d/e.rs"), parts("C.rs")];
    let two = vec![parts("C.rs"), parts("a/d/e.rs"), parts("c.rs"), parts("a/b.rs")];
    let root = FilePath::new(vec![]);
    let mut x = build_tree(&one, &root, "r", None);
    let mut y = build_tree(&two, &root, "r", None);
    assert_eq!(x.dirs.len(), y.dirs.len());
    assert_eq!(x.dirs[0].name, y.dirs[0].name);
    assert_eq!(render_tree_text(&mut x, 5, None), render_tree_text(&mut y, 5, None));
    assert_eq!(x.files, y.files);
}

#[test]
fn render_twice_gives_the_same_text() {
    let mut tree = build_tree(&project(), &abs("work/proj"), "/work/proj", None);
    let first = render_tree_text(&mut tree, 5, None);
    let second = render_tree_text(&mut tree, 5, None);
    assert_eq!(first, second);
}

#[test]
fn every_file_is_shown_once_at_its_depth() {
    let paths = vec![parts("a/b/c.rs"), parts("a/d.rs"), parts("e.rs")];
    let mut tree = build_tree(&paths, &FilePath::new(vec![]), "r", None);
    let text = render_tree_text(&mut tree, 2, None);
    let lines: Vec<&str> = text.split('\n').collect();
    assert_eq!(lines.iter().filter(|l| **l == "      c.rs").count(), 1);
    assert_eq!(lines.iter().filter(|l| **l == "    d.rs").count(), 1);
    assert_eq!(lines.iter().filter(|l| **l == "  e.rs").count(), 1);
    assert_eq!(lines.len(), 6);
    let mut cut = build_tree(&paths, &FilePath::new(vec![]), "r", Some(2));
    let text = render_tree_text(&mut cut, 2, Some(2));
    assert!(!text.contains("c.rs"));
    assert!(text.contains("    d.rs"));
}

#[test]
fn duplicate_paths_are_shown_as_often_as_given() {
    let paths = vec![parts("a.rs"), parts("a.rs")];
    let mut tree = build_tree(&paths, &FilePath::new(vec![]), "r", None);
    assert_eq!(render_tree_text(&mut tree, 1, None), "r/\n a.rs\n a.rs");
}

#[test]
fn files_sort_without_case_then_by_name() {
    let mut files: Vec<String> =
        vec!["b.txt", "a.txt", "B.txt", "A.txt", "_x", "Z"].iter().map(|s| s.to_string()).collect();
    sort_files(&mut files);
    assert_eq!(files, vec!["_x", "A.txt", "a.txt", "B.txt", "b.txt", "Z"]);
    assert!(file_before("A.txt", "a.txt"));
    assert!(!file_before("a.txt", "A.txt"));
    assert!(file_before("a.txt", "B.txt"));
    assert!(file_before("same", "same"));
}

#[test]
fn names_compare_by_bytes() {
    assert_eq!(compare_names("a", "b"), Order::Less);
    assert_eq!(compare_names("b", "a"), Order::Greater);
    assert_eq!(compare_names("a", "a"), Order::Equal);
    assert_eq!(compare_names("Z", "a"), Order::Less);
    assert_eq!(compare_names("a", "ab"), Order::Less);
    assert_eq!(compare_names("", ""), Order::Equal);
    assert_eq!(compare_names("é", "z"), Order::Greater);
}

#[test]
fn paths_compare_component_by_component() {
    assert_eq!(compare_paths(&parts("a/b"), &parts("a/c")), Order::Less);
    assert_eq!(compare_paths(&parts("a"), &parts("a/c")), Order::Less);
    assert_eq!(compare_paths(&parts("a/c"), &parts("a/c")), Order::Equal);
    assert_eq!(compare_paths(&parts("b"), &parts("a/c")), Order::Greater);
    assert_eq!(compare_paths(&parts("a/b"), &parts("a.b")), Order::Less);
}

#[test]
fn selection_filters_sorts_and_caps() {
    let files = vec![
        parts("src/main.rs"),
        parts("README.md"),
        parts("a.out"),
        parts(".env"),
        parts("Cargo.lock"),
    ];
    let all = select_files(files, &defaults(), None);
    assert_eq!(texts(&all), vec![".env", "README.md", "src/main.rs"]);
    let files = vec![parts("src/main.rs"), parts("README.md"), parts(".env")];
    let two = select_files(files, &defaults(), Some(2));
    assert_eq!(texts(&two), vec![".env", "README.md"]);
    let files = vec![parts("src/main.rs"), parts("README.md")];
    assert_eq!(select_files(files, &defaults(), Some(0)).len(), 0);
    let files = vec![parts("src/main.rs"), parts("README.md")];
    assert_eq!(select_files(files, &defaults(), Some(9)).len(), 2);
}

#[test]
fn hidden_secrets_leave_the_output() {
    let hide = options(false, false, true);
    let files = select_files(project(), &hide, None);
    let root = abs("work/proj");
    let mut tree = build_tree(&files, &root, "/work/proj", None);
    let text = render_report(&mut tree, "/work/proj", DiscoveryMode::FsHeuristic, true, None);
    assert_eq!(text, "proj/\n     src/\n          main.rs\n     README.md\n");
    assert!(!text.contains(".env"));
}

#[test]
fn whole_run_with_defaults() {
    let files = select_files(project(), &defaults(), None);
    assert_eq!(files.len(), 3);
    let root = abs("work/proj");
    let mut tree = build_tree(&files, &root, "/work/proj", None);
    let text = render_report(&mut tree, "/work/proj", DiscoveryMode::FsHeuristic, true, None);
    assert_eq!(text, "proj/\n     src/\n          main.rs\n     .env\n     README.md\n");
}

#[test]
fn whole_run_with_depth_one() {
    let files = select_files(project(), &defaults(), None);
    let root = abs("work/proj");
    let mut tree = build_tree(&files, &root, "/work/proj", Some(1));
    let text = render_report(&mut tree, "/work/proj", DiscoveryMode::FsHeuristic, true, Some(1));
    assert_eq!(text, "proj/\n     src/\n     .env\n     README.md\n");
}

#[test]
fn report_starts_with_the_header() {
    let mut tree = TreeNode::new("proj".to_string());
    let text = render_report(&mut tree, "/work/proj", DiscoveryMode::GitAware, false, None);
    let expected = "# Tree for AI\nroot: /work/proj\nmode: git-aware\nrules:\n\
- Work only with files/paths listed below unless explicitly asked to create new ones.\n\
- All paths are relative to the root above.\n\
- File contents are not included; ask if more context is needed.\n\nproj/\n";
    assert_eq!(text, expected);
    assert_eq!(header("/r", DiscoveryMode::FsHeuristic).lines().nth(2), Some("mode: fs-heuristic"));
}

#[test]
fn output_ends_with_one_newline() {
    assert_eq!(end_with_newline("a".to_string()), "a\n");
    assert_eq!(end_with_newline("a\n".to_string()), "a\n");
    assert_eq!(end_with_newline(String::new()), "\n");
    let mut tree = build_tree(&vec![parts("odd\n")], &FilePath::new(vec![]), "r", None);
    let text = render_report(&mut tree, "r", DiscoveryMode::FsHeuristic, true, None);
    assert_eq!(text, "r/\n     odd\n");
}

#[test]
fn structured_report_carries_the_run() {
    let tree = build_tree(&project(), &abs("work/proj"), "/work/proj", None);
    let r = Report::new("/work/proj".to_string(), DiscoveryMode::GitAware, 3, tree);
    assert_eq!(r.root, "/work/proj");
    assert_eq!(r.mode, DiscoveryMode::GitAware);
    assert_eq!(r.indent, 5);
    assert_eq!(r.files_count, 3);
    assert_eq!(r.tree.name, "proj");
}

#[test]
fn lines_join_without_trailing_newline() {
    assert_eq!(join_lines(&vec![]), "");
    assert_eq!(join_lines(&vec!["a".to_string()]), "a");
    assert_eq!(join_lines(&vec!["a".to_string(), "".to_string(), "b".to_string()]), "a\n\nb");
    assert_eq!(spaces_string(3), "   ");
    assert_eq!(spaces_string(0), "");
}

#[test]
fn listing_keeps_lines_that_are_not_blank() {
    let lines = listing_lines(true, "a.rs\nsrc/b.rs\n\n  \nc d.rs\r\n");
    assert_eq!(lines, Some(vec!["a.rs".to_string(), "src/b.rs".to_string(), "c d.rs".to_string()]));
    assert_eq!(listing_lines(true, ""), Some(vec![]));
    assert_eq!(listing_lines(false, "a.rs\n"), None);
}

#[test]
fn listings_merge_without_duplicates() {
    let indexed = vec![parts("b.rs"), parts("a.rs"), parts("b.rs")];
    let ignored = vec![parts(".env"), parts("target/x"), parts("a.rs")];
    let all = merge_listings(indexed, ignored, true, false);
    assert_eq!(texts(&all), vec![".env", "a.rs", "b.rs", "target/x"]);
}

#[test]
fn ignored_secrets_are_taken_by_name() {
    let indexed = vec![parts("b.rs")];
    let ignored = vec![parts(".env"), parts("target/x"), parts("my-secret.key")];
    let all = merge_listings(indexed, ignored, false, true);
    assert_eq!(texts(&all), vec![".env", "b.rs", "my-secret.key"]);
    let indexed = vec![parts("b.rs")];
    let ignored = vec![parts(".env"), parts("target/x")];
    let none = merge_listings(indexed, ignored, false, false);
    assert_eq!(texts(&none), vec!["b.rs"]);
}
