//! Discovery of candidate files: the decisions around the version-control
//! query and the filesystem walk. The query and the walk themselves are the
//! caller's.

use vstd::prelude::*;
use crate::text::{spells, to_chars, trim, trimmed};
use crate::trusted::{lowercase, to_lower};

verus! {

/// How the candidate paths were found.
#[derive(Clone, Copy, Debug, PartialEq, Eq, Structural)]
pub enum DiscoveryMode {
    /// The paths came from the version-control index.
    GitAware,
    /// The paths came from a walk of the filesystem.
    FsHeuristic,
}

/// Lowercased names of directories that a filesystem walk never enters:
/// version-control metadata, caches, dependencies, build output, editor and
/// infrastructure directories.
pub open spec fn is_noisy_dir_name(lower: Seq<char>) -> bool {
    ||| lower == ".git"@
    ||| lower == ".hg"@
    ||| lower == ".svn"@
    ||| lower == "__pycache__"@
    ||| lower == ".cache"@
    ||| lower == ".mypy_cache"@
    ||| lower == ".pytest_cache"@
    ||| lower == ".ruff_cache"@
    ||| lower == ".tox"@
    ||| lower == ".venv"@
    ||| lower == "venv"@
    ||| lower == "env"@
    ||| lower == "node_modules"@
    ||| lower == ".pnpm-store"@
    ||| lower == "dist"@
    ||| lower == "build"@
    ||| lower == "out"@
    ||| lower == ".next"@
    ||| lower == ".nuxt"@
    ||| lower == ".angular"@
    ||| lower == ".parcel-cache"@
    ||| lower == "target"@
    ||| lower == "bin"@
    ||| lower == "obj"@
    ||| lower == ".gradle"@
    ||| lower == ".idea"@
    ||| lower == ".vscode"@
    ||| lower == ".terraform"@
    ||| lower == ".serverless"@
    ||| lower == ".docusaurus"@
}

/// Whether a walk keeps an entry found at the given depth under the given
/// name: the root always, any other entry unless its name, whatever its case,
/// is that of a noisy directory.
pub open spec fn dir_allowed(depth: nat, name: Seq<char>) -> bool {
    depth == 0 || !is_noisy_dir_name(lowercase(name))
}

/// The label under which a discovery mode is reported.
pub open spec fn mode_label_of(mode: DiscoveryMode) -> Seq<char> {
    match mode {
        DiscoveryMode::GitAware => "git-aware"@,
        DiscoveryMode::FsHeuristic => "fs-heuristic"@,
    }
}

/// The mode that a run starts in: git-aware where a repository root was
/// found and version control was not switched off.
pub open spec fn mode_of(git_root_found: bool, no_git: bool) -> DiscoveryMode {
    if git_root_found && !no_git {
        DiscoveryMode::GitAware
    } else {
        DiscoveryMode::FsHeuristic
    }
}

/// The mode that a run ends in: the one it started in, unless the
/// version-control query failed, which leaves the walk of the filesystem.
pub open spec fn mode_after(planned: DiscoveryMode, query_succeeded: bool) -> DiscoveryMode {
    if planned == DiscoveryMode::GitAware && query_succeeded {
        DiscoveryMode::GitAware
    } else {
        DiscoveryMode::FsHeuristic
    }
}

/// The repository root that a root query reports: none where the query
/// failed or printed only whitespace, else what it printed, trimmed.
pub open spec fn git_root_of(success: bool, stdout: Seq<char>) -> Option<Seq<char>> {
    if !success || trimmed(stdout).len() == 0 {
        None
    } else {
        Some(trimmed(stdout))
    }
}

/// Whether the characters spell a noisy directory's lowercased name.
fn noisy_dir_name(c: &Vec<char>) -> (r: bool)
    ensures
        r == is_noisy_dir_name(c@),
{
    spells(c, ".git")
        || spells(c, ".hg")
        || spells(c, ".svn")
        || spells(c, "__pycache__")
        || spells(c, ".cache")
        || spells(c, ".mypy_cache")
        || spells(c, ".pytest_cache")
        || spells(c, ".ruff_cache")
        || spells(c, ".tox")
        || spells(c, ".venv")
        || spells(c, "venv")
        || spells(c, "env")
        || spells(c, "node_modules")
        || spells(c, ".pnpm-store")
        || spells(c, "dist")
        || spells(c, "build")
        || spells(c, "out")
        || spells(c, ".next")
        || spells(c, ".nuxt")
        || spells(c, ".angular")
        || spells(c, ".parcel-cache")
        || spells(c, "target")
        || spells(c, "bin")
        || spells(c, "obj")
        || spells(c, ".gradle")
        || spells(c, ".idea")
        || spells(c, ".vscode")
        || spells(c, ".terraform")
        || spells(c, ".serverless")
        || spells(c, ".docusaurus")
}

/// Decides whether a lowercased directory name may be entered at the given
/// depth.
pub fn dir_allowed_lower(depth: usize, lower: &str) -> (r: bool)
    ensures
        r == (depth == 0 || !is_noisy_dir_name(lower@)),
{
    if depth == 0 {
        return true;
    }
    let c = to_chars(lower);
    !noisy_dir_name(&c)
}

/// Directory filter for a filesystem walk: skips dependency, build and cache
/// folders, but never the root of the walk.
pub fn fs_dir_allow(depth: usize, name: &str) -> (r: bool)
    ensures
        r == dir_allowed(depth as nat, name@),
{
    if depth == 0 {
        return true;
    }
    let lower = to_lower(name);
    dir_allowed_lower(depth, lower.as_str())
}

impl DiscoveryMode {
    /// The mode of a run, from whether a repository root was found and
    /// whether version control was switched off.
    pub fn select(git_root_found: bool, no_git: bool) -> (r: DiscoveryMode)
        ensures
            r == mode_of(git_root_found, no_git),
    {
        if git_root_found && !no_git {
            DiscoveryMode::GitAware
        } else {
            DiscoveryMode::FsHeuristic
        }
    }

    /// The mode actually used, once it is known whether the version-control
    /// query succeeded: a failed query falls back to the filesystem walk.
    pub fn after_query(self, query_succeeded: bool) -> (r: DiscoveryMode)
        ensures
            r == mode_after(self, query_succeeded),
    {
        match self {
            DiscoveryMode::GitAware => if query_succeeded {
                DiscoveryMode::GitAware
            } else {
                DiscoveryMode::FsHeuristic
            },
            DiscoveryMode::FsHeuristic => DiscoveryMode::FsHeuristic,
        }
    }

    /// The label under which the mode is reported.
    pub fn label(&self) -> (r: &'static str)
        ensures
            r@ == mode_label_of(*self),
    {
        match self {
            DiscoveryMode::GitAware => "git-aware",
            DiscoveryMode::FsHeuristic => "fs-heuristic",
        }
    }
}

/// The repository root that a root query reports, from whether the query
/// succeeded and what it printed.
pub fn git_root_from_output(success: bool, stdout: &str) -> (r: Option<String>)
    ensures
        r is Some == git_root_of(success, stdout@) is Some,
        r is Some ==> r->0@ == git_root_of(success, stdout@)->0,
{
    if !success {
        return None;
    }
    let shown = trim(stdout);
    if shown.as_str().unicode_len() == 0 {
        None
    } else {
        Some(shown)
    }
}

/// Whether the ignored paths have to be queried too: where they are wanted
/// as such, or where secret-like names among them are to be shown.
pub fn wants_ignored_listing(include_ignored: bool, include_secret_names: bool) -> (r: bool)
    ensures
        r == (include_ignored || include_secret_names),
{
    include_ignored || include_secret_names
}

} // verus!
