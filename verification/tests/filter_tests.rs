use tree_for_ai::discovery::{
    fs_dir_allow, git_root_from_output, wants_ignored_listing, DiscoveryMode,
};
use tree_for_ai::filter::{is_relevant_path, verdict, FilterOptions};
use tree_for_ai::path::{name_extension, root_name, FilePath};
use tree_for_ai::secret::{is_secret_name, is_secret_path, secret_verdict};

fn path(text: &str) -> FilePath {
    FilePath::new(text.split('/').filter(|c| !c.is_empty()).map(|c| c.to_string()).collect())
}

fn options(include_assets: bool, include_binaries: bool, hide_secrets: bool) -> FilterOptions {
    FilterOptions { include_assets, include_binaries, hide_secrets, include_ignored: false }
}

fn defaults() -> FilterOptions {
    options(false, false, false)
}

fn hiding() -> FilterOptions {
    options(false, false, true)
}

#[test]
fn dotenv_names_are_secret() {
    assert!(is_secret_path(&path(".env")));
    assert!(is_secret_path(&path(".env.local")));
    assert!(is_secret_path(&path("deploy/.ENV.production")));
}

#[test]
fn secret_word_alone_is_secret() {
    assert!(is_secret_path(&path("config.secrets.yaml")));
    assert!(is_secret_path(&path("secret.txt")));
    assert!(is_secret_path(&path("my-secret.txt")));
    assert!(is_secret_path(&path("secrets.json")));
    assert!(is_secret_path(&path("a/b/SECRET")));
    assert!(is_secret_path(&path("Top_Secret_2.md")));
}

#[test]
fn secret_inside_a_word_is_not_secret() {
    assert!(!is_secret_path(&path("secretary.txt")));
    assert!(!is_secret_path(&path("presecret.md")));
    assert!(!is_secret_path(&path("secretsauce.rs")));
    assert!(!is_secret_path(&path(".envrc")));
    assert!(!is_secret_path(&path("main.rs")));
}

#[test]
fn secret_is_judged_by_the_final_name_only() {
    assert!(!is_secret_path(&path("secrets/readme.md")));
    assert!(!is_secret_path(&path(".env/config.toml")));
    assert!(!is_secret_path(&FilePath::new(vec![])));
    assert!(!is_secret_path(&path("a/..")));
}

#[test]
fn secret_name_matches_secret_path() {
    assert!(is_secret_name("Secrets.JSON"));
    assert!(!is_secret_name("Secretary.JSON"));
}

#[test]
fn secret_verdict_follows_the_search() {
    assert!(secret_verdict(".env", None));
    assert!(secret_verdict(".env.local", Some(false)));
    assert!(secret_verdict("x", Some(true)));
    assert!(!secret_verdict("x", Some(false)));
    assert!(!secret_verdict("x", None));
    assert!(!secret_verdict(".envx", Some(false)));
    assert!(!secret_verdict("a.env", Some(false)));
}

#[test]
fn junk_files_are_rejected_first() {
    let all = options(true, true, false);
    assert!(!is_relevant_path(&path("a/.DS_Store"), &all));
    assert!(!is_relevant_path(&path("Thumbs.db"), &all));
}

#[test]
fn lockfiles_are_rejected_before_secrets() {
    let all = options(true, true, false);
    assert!(!is_relevant_path(&path("Cargo.lock"), &all));
    assert!(!is_relevant_path(&path("package-lock.json"), &all));
    assert!(!is_relevant_path(&path("pnpm-lock.yaml"), &all));
    assert!(!is_relevant_path(&path("Pipfile.lock"), &all));
    assert!(!is_relevant_path(&path("secret.lock"), &all));
}

#[test]
fn secrets_are_shown_whatever_their_extension() {
    assert!(is_relevant_path(&path(".env"), &defaults()));
    assert!(is_relevant_path(&path("my-secret.bin"), &defaults()));
    assert!(is_relevant_path(&path("secrets"), &defaults()));
    let assets = options(true, false, false);
    assert!(is_relevant_path(&path("secret.exe"), &assets));
}

#[test]
fn hidden_secrets_fall_to_the_later_rules() {
    assert!(!is_relevant_path(&path(".env"), &hiding()));
    assert!(!is_relevant_path(&path("my-secret.bin"), &hiding()));
    assert!(is_relevant_path(&path("secrets.json"), &hiding()));
}

#[test]
fn binaries_option_accepts_what_is_left() {
    let bin = options(false, true, true);
    assert!(is_relevant_path(&path("a.out"), &bin));
    assert!(is_relevant_path(&path(".env"), &bin));
    assert!(is_relevant_path(&FilePath::new(vec![]), &bin));
}

#[test]
fn build_files_match_by_exact_case() {
    assert!(is_relevant_path(&path("Dockerfile"), &defaults()));
    assert!(is_relevant_path(&path("Makefile"), &defaults()));
    assert!(is_relevant_path(&path("dockerfile"), &defaults()));
    assert!(is_relevant_path(&path("Dockerfile.dev"), &defaults()));
    assert!(!is_relevant_path(&path("makefile"), &defaults()));
    assert!(!is_relevant_path(&path("DOCKERFILE"), &defaults()));
}

#[test]
fn relevant_extensions_ignore_case() {
    assert!(is_relevant_path(&path("src/main.rs"), &defaults()));
    assert!(is_relevant_path(&path("README.MD"), &defaults()));
    assert!(is_relevant_path(&path("a/b/Index.Html"), &defaults()));
    assert!(is_relevant_path(&path("x.prettierignore"), &defaults()));
    assert!(is_relevant_path(&path("config.env"), &hiding()));
    assert!(!is_relevant_path(&path("a.out"), &defaults()));
    assert!(!is_relevant_path(&path("noextension"), &defaults()));
    assert!(!is_relevant_path(&path(".gitignore"), &defaults()));
}

#[test]
fn assets_need_their_option() {
    let assets = options(true, false, false);
    assert!(!is_relevant_path(&path("logo.PNG"), &defaults()));
    assert!(is_relevant_path(&path("logo.PNG"), &assets));
    assert!(is_relevant_path(&path("a.tar.gz"), &assets));
    assert!(!is_relevant_path(&path("a.exe"), &assets));
}

#[test]
fn verdict_applies_the_rules_in_order() {
    let d = defaults();
    assert!(!verdict(Some(".DS_Store"), Some(".ds_store"), true, None, &d));
    assert!(!verdict(Some("x.lock"), Some("x.lock"), true, Some("lock"), &d));
    assert!(verdict(Some("x"), Some("x"), true, None, &d));
    assert!(!verdict(Some("x"), Some("x"), true, None, &hiding()));
    assert!(verdict(Some("Makefile"), Some("makefile"), false, None, &d));
    assert!(verdict(Some("a.rs"), Some("a.rs"), false, Some("rs"), &d));
    assert!(!verdict(Some("a.RS"), Some("a.rs"), false, Some("RS"), &d));
    assert!(!verdict(Some("a.png"), Some("a.png"), false, Some("png"), &d));
    assert!(!verdict(None, None, false, None, &d));
}

#[test]
fn extension_follows_the_last_dot() {
    assert_eq!(name_extension("main.rs"), Some("rs"));
    assert_eq!(name_extension("a.tar.gz"), Some("gz"));
    assert_eq!(name_extension("foo."), Some(""));
    assert_eq!(name_extension(".env"), None);
    assert_eq!(name_extension(".env.local"), Some("local"));
    assert_eq!(name_extension("Makefile"), None);
    assert_eq!(name_extension(""), None);
}

#[test]
fn final_name_is_the_last_ordinary_component() {
    assert_eq!(path("a/b.txt").file_name(), Some("b.txt"));
    assert_eq!(path("a/..").file_name(), None);
    assert_eq!(FilePath::new(vec!["/".to_string()]).file_name(), None);
    assert_eq!(FilePath::new(vec![".".to_string()]).file_name(), None);
    assert_eq!(FilePath::new(vec![]).file_name(), None);
    assert_eq!(path("a/...").file_name(), Some("..."));
    assert_eq!(path("a/b").len(), 2);
}

#[test]
fn root_name_falls_back_to_the_full_text() {
    assert_eq!(root_name(&path("home/me/proj"), "/home/me/proj"), "proj");
    assert_eq!(root_name(&FilePath::new(vec!["/".to_string()]), "/"), "/");
    assert_eq!(root_name(&path("a/.."), "a/.."), "a/..");
}

#[test]
fn walk_skips_noisy_directories() {
    assert!(!fs_dir_allow(1, "node_modules"));
    assert!(!fs_dir_allow(3, ".git"));
    assert!(!fs_dir_allow(2, "Target"));
    assert!(!fs_dir_allow(1, "__PYCACHE__"));
    assert!(!fs_dir_allow(1, ".docusaurus"));
    assert!(fs_dir_allow(1, "src"));
    assert!(fs_dir_allow(1, "node_modules2"));
    assert!(fs_dir_allow(1, "builds"));
}

#[test]
fn walk_never_skips_its_root() {
    assert!(fs_dir_allow(0, "node_modules"));
    assert!(fs_dir_allow(0, "target"));
}

#[test]
fn mode_is_git_aware_only_with_a_root_and_git_on() {
    assert_eq!(DiscoveryMode::select(true, false), DiscoveryMode::GitAware);
    assert_eq!(DiscoveryMode::select(true, true), DiscoveryMode::FsHeuristic);
    assert_eq!(DiscoveryMode::select(false, false), DiscoveryMode::FsHeuristic);
    assert_eq!(DiscoveryMode::GitAware.after_query(true), DiscoveryMode::GitAware);
    assert_eq!(DiscoveryMode::GitAware.after_query(false), DiscoveryMode::FsHeuristic);
    assert_eq!(DiscoveryMode::FsHeuristic.after_query(true), DiscoveryMode::FsHeuristic);
    assert_eq!(DiscoveryMode::GitAware.label(), "git-aware");
    assert_eq!(DiscoveryMode::FsHeuristic.label(), "fs-heuristic");
}

#[test]
fn git_root_is_the_trimmed_output() {
    assert_eq!(git_root_from_output(true, "  /home/me/proj\n"), Some("/home/me/proj".to_string()));
    assert_eq!(git_root_from_output(true, " \n"), None);
    assert_eq!(git_root_from_output(true, ""), None);
    assert_eq!(git_root_from_output(false, "/home/me/proj\n"), None);
}

#[test]
fn ignored_listing_is_wanted_for_either_reason() {
    assert!(wants_ignored_listing(true, false));
    assert!(wants_ignored_listing(false, true));
    assert!(!wants_ignored_listing(false, false));
}
