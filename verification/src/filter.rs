//! The relevance filter: which discovered paths are kept for the listing.

use vstd::prelude::*;
use crate::path::{extension_of, file_name_of, name_extension, FilePath};
use crate::secret::{is_secret, is_secret_path};
use crate::text::{finishes_with, is_suffix, spells, to_chars};
use crate::trusted::{lowercase, to_lower};

verus! {

/// The options of the relevance filter.
#[derive(Clone, Copy, Debug)]
pub struct FilterOptions {
    /// Also keep common assets: images, audio, video, fonts, archives, documents.
    pub include_assets: bool,
    /// Keep every file that no deny rule rejects.
    pub include_binaries: bool,
    /// Do not keep a file merely because its name is secret-like.
    pub hide_secrets: bool,
    /// Take the paths that version control ignores among the candidates. It
    /// decides which paths are found, not which of them are relevant.
    pub include_ignored: bool,
}

/// Lowercased names of operating-system metadata files, never kept.
pub open spec fn is_junk_name(lower: Seq<char>) -> bool {
    ||| lower == ".ds_store"@
    ||| lower == "thumbs.db"@
}

/// Lowercased names of well-known dependency lockfiles.
pub open spec fn is_lockfile_name(lower: Seq<char>) -> bool {
    ||| lower == "yarn.lock"@
    ||| lower == "package-lock.json"@
    ||| lower == "pnpm-lock.yaml"@
    ||| lower == "pipfile.lock"@
    ||| lower == "poetry.lock"@
}

/// Whether a lowercased name is that of a dependency lockfile: it ends in
/// `.lock` or is a well-known lockfile name.
pub open spec fn is_lock_name(lower: Seq<char>) -> bool {
    is_suffix(".lock"@, lower) || is_lockfile_name(lower)
}

/// Well-known build files, matched by their exact name.
pub open spec fn is_build_file_name(name: Seq<char>) -> bool {
    ||| name == "Dockerfile"@
    ||| name == "Makefile"@
    ||| name == "dockerfile"@
    ||| name == "Dockerfile.dev"@
}

/// Lowercased extensions of documentation and configuration files.
pub open spec fn is_doc_extension(e: Seq<char>) -> bool {
    ||| e == "md"@
    ||| e == "rst"@
    ||| e == "adoc"@
    ||| e == "txt"@
    ||| e == "json"@
    ||| e == "jsonc"@
    ||| e == "yaml"@
    ||| e == "yml"@
    ||| e == "toml"@
    ||| e == "ini"@
    ||| e == "cfg"@
    ||| e == "conf"@
    ||| e == "env"@
    ||| e == "properties"@
}

/// Lowercased extensions of web files.
pub open spec fn is_web_extension(e: Seq<char>) -> bool {
    ||| e == "html"@
    ||| e == "htm"@
    ||| e == "css"@
    ||| e == "scss"@
    ||| e == "less"@
}

/// Lowercased extensions of source code and project files.
pub open spec fn is_code_extension(e: Seq<char>) -> bool {
    ||| e == "rs"@
    ||| e == "py"@
    ||| e == "pyi"@
    ||| e == "ipynb"@
    ||| e == "js"@
    ||| e == "cjs"@
    ||| e == "mjs"@
    ||| e == "jsx"@
    ||| e == "ts"@
    ||| e == "tsx"@
    ||| e == "sh"@
    ||| e == "bash"@
    ||| e == "zsh"@
    ||| e == "ps1"@
    ||| e == "bat"@
    ||| e == "cmd"@
    ||| e == "go"@
    ||| e == "java"@
    ||| e == "kt"@
    ||| e == "kts"@
    ||| e == "c"@
    ||| e == "h"@
    ||| e == "cpp"@
    ||| e == "hpp"@
    ||| e == "cc"@
    ||| e == "hh"@
    ||| e == "cs"@
    ||| e == "vb"@
    ||| e == "php"@
    ||| e == "rb"@
    ||| e == "swift"@
    ||| e == "scala"@
    ||| e == "erl"@
    ||| e == "ex"@
    ||| e == "exs"@
    ||| e == "sql"@
    ||| e == "prisma"@
    ||| e == "graphql"@
    ||| e == "gql"@
    ||| e == "gradle"@
    ||| e == "groovy"@
    ||| e == "tf"@
    ||| e == "sln"@
    ||| e == "csproj"@
    ||| e == "fsproj"@
    ||| e == "vbproj"@
    ||| e == "vcxproj"@
    ||| e == "editorconfig"@
    ||| e == "gitattributes"@
    ||| e == "gitignore"@
    ||| e == "eslintignore"@
    ||| e == "prettierignore"@
}

/// Lowercased extensions that are relevant by default.
pub open spec fn is_relevant_extension(e: Seq<char>) -> bool {
    is_doc_extension(e) || is_web_extension(e) || is_code_extension(e)
}

/// Lowercased extensions of assets, kept only on request.
pub open spec fn is_asset_extension(e: Seq<char>) -> bool {
    ||| e == "png"@
    ||| e == "jpg"@
    ||| e == "jpeg"@
    ||| e == "gif"@
    ||| e == "svg"@
    ||| e == "webp"@
    ||| e == "ico"@
    ||| e == "bmp"@
    ||| e == "tiff"@
    ||| e == "mp3"@
    ||| e == "wav"@
    ||| e == "flac"@
    ||| e == "mp4"@
    ||| e == "mov"@
    ||| e == "mkv"@
    ||| e == "avi"@
    ||| e == "woff"@
    ||| e == "woff2"@
    ||| e == "eot"@
    ||| e == "ttf"@
    ||| e == "otf"@
    ||| e == "pdf"@
    ||| e == "zip"@
    ||| e == "tar"@
    ||| e == "gz"@
    ||| e == "tgz"@
    ||| e == "bz2"@
    ||| e == "7z"@
    ||| e == "rar"@
}

/// The verdict of the filter on one file, from what is known of it: its final
/// name and that name lowercased (both absent where the path has no final
/// name), whether it is secret-like, and its lowercased extension. The rules
/// apply in order, and the first that matches decides.
pub open spec fn verdict_of(
    name: Option<Seq<char>>,
    lower: Option<Seq<char>>,
    secret: bool,
    ext: Option<Seq<char>>,
    opts: FilterOptions,
) -> bool {
    if lower is Some && is_junk_name(lower->0) {
        false
    } else if lower is Some && is_lock_name(lower->0) {
        false
    } else if !opts.hide_secrets && secret {
        true
    } else if opts.include_binaries {
        true
    } else if name is Some && is_build_file_name(name->0) {
        true
    } else if ext is Some && is_relevant_extension(ext->0) {
        true
    } else if ext is Some && opts.include_assets && is_asset_extension(ext->0) {
        true
    } else {
        false
    }
}

/// The lowercase form of a text that may be absent.
pub open spec fn lowercase_of(s: Option<Seq<char>>) -> Option<Seq<char>> {
    match s {
        Some(t) => Some(lowercase(t)),
        None => None,
    }
}

/// Whether a path is relevant under the given options.
pub open spec fn is_relevant(p: Seq<Seq<char>>, opts: FilterOptions) -> bool {
    verdict_of(
        file_name_of(p),
        lowercase_of(file_name_of(p)),
        is_secret(p),
        lowercase_of(extension_of(p)),
        opts,
    )
}

/// Whether the characters spell a junk file's lowercased name.
fn junk_name(c: &Vec<char>) -> (r: bool)
    ensures
        r == is_junk_name(c@),
{
    spells(c, ".ds_store")
        || spells(c, "thumbs.db")
}

/// Whether the characters spell a well-known lockfile's lowercased name.
fn lockfile_name(c: &Vec<char>) -> (r: bool)
    ensures
        r == is_lockfile_name(c@),
{
    spells(c, "yarn.lock")
        || spells(c, "package-lock.json")
        || spells(c, "pnpm-lock.yaml")
        || spells(c, "pipfile.lock")
        || spells(c, "poetry.lock")
}

/// Whether the characters spell a well-known build file's name.
fn build_file_name(c: &Vec<char>) -> (r: bool)
    ensures
        r == is_build_file_name(c@),
{
    spells(c, "Dockerfile")
        || spells(c, "Makefile")
        || spells(c, "dockerfile")
        || spells(c, "Dockerfile.dev")
}

/// Whether the characters spell a documentation or configuration extension.
fn doc_extension(c: &Vec<char>) -> (r: bool)
    ensures
        r == is_doc_extension(c@),
{
    spells(c, "md")
        || spells(c, "rst")
        || spells(c, "adoc")
        || spells(c, "txt")
        || spells(c, "json")
        || spells(c, "jsonc")
        || spells(c, "yaml")
        || spells(c, "yml")
        || spells(c, "toml")
        || spells(c, "ini")
        || spells(c, "cfg")
        || spells(c, "conf")
        || spells(c, "env")
        || spells(c, "properties")
}

/// Whether the characters spell a web extension.
fn web_extension(c: &Vec<char>) -> (r: bool)
    ensures
        r == is_web_extension(c@),
{
    spells(c, "html")
        || spells(c, "htm")
        || spells(c, "css")
        || spells(c, "scss")
        || spells(c, "less")
}

/// Whether the characters spell a source-code extension.
fn code_extension(c: &Vec<char>) -> (r: bool)
    ensures
        r == is_code_extension(c@),
{
    spells(c, "rs")
        || spells(c, "py")
        || spells(c, "pyi")
        || spells(c, "ipynb")
        || spells(c, "js")
        || spells(c, "cjs")
        || spells(c, "mjs")
        || spells(c, "jsx")
        || spells(c, "ts")
        || spells(c, "tsx")
        || spells(c, "sh")
        || spells(c, "bash")
        || spells(c, "zsh")
        || spells(c, "ps1")
        || spells(c, "bat")
        || spells(c, "cmd")
        || spells(c, "go")
        || spells(c, "java")
        || spells(c, "kt")
        || spells(c, "kts")
        || spells(c, "c")
        || spells(c, "h")
        || spells(c, "cpp")
        || spells(c, "hpp")
        || spells(c, "cc")
        || spells(c, "hh")
        || spells(c, "cs")
        || spells(c, "vb")
        || spells(c, "php")
        || spells(c, "rb")
        || spells(c, "swift")
        || spells(c, "scala")
        || spells(c, "erl")
        || spells(c, "ex")
        || spells(c, "exs")
        || spells(c, "sql")
        || spells(c, "prisma")
        || spells(c, "graphql")
        || spells(c, "gql")
        || spells(c, "gradle")
        || spells(c, "groovy")
        || spells(c, "tf")
        || spells(c, "sln")
        || spells(c, "csproj")
        || spells(c, "fsproj")
        || spells(c, "vbproj")
        || spells(c, "vcxproj")
        || spells(c, "editorconfig")
        || spells(c, "gitattributes")
        || spells(c, "gitignore")
        || spells(c, "eslintignore")
        || spells(c, "prettierignore")
}

/// Whether the characters spell an asset extension.
fn asset_extension(c: &Vec<char>) -> (r: bool)
    ensures
        r == is_asset_extension(c@),
{
    spells(c, "png")
        || spells(c, "jpg")
        || spells(c, "jpeg")
        || spells(c, "gif")
        || spells(c, "svg")
        || spells(c, "webp")
        || spells(c, "ico")
        || spells(c, "bmp")
        || spells(c, "tiff")
        || spells(c, "mp3")
        || spells(c, "wav")
        || spells(c, "flac")
        || spells(c, "mp4")
        || spells(c, "mov")
        || spells(c, "mkv")
        || spells(c, "avi")
        || spells(c, "woff")
        || spells(c, "woff2")
        || spells(c, "eot")
        || spells(c, "ttf")
        || spells(c, "otf")
        || spells(c, "pdf")
        || spells(c, "zip")
        || spells(c, "tar")
        || spells(c, "gz")
        || spells(c, "tgz")
        || spells(c, "bz2")
        || spells(c, "7z")
        || spells(c, "rar")
}

/// Applies the filter's rules, in order, to what is known of one file: its
/// final name and that name lowercased, whether it is secret-like, and its
/// lowercased extension.
pub fn verdict(
    name: Option<&str>,
    lower: Option<&str>,
    secret: bool,
    ext: Option<&str>,
    opts: &FilterOptions,
) -> (r: bool)
    ensures
        r == verdict_of(
            match name { Some(s) => Some(s@), None => None },
            match lower { Some(s) => Some(s@), None => None },
            secret,
            match ext { Some(s) => Some(s@), None => None },
            *opts,
        ),
{
    if let Some(l) = lower {
        let c = to_chars(l);
        if junk_name(&c) {
            return false;
        }
        if finishes_with(&c, ".lock") || lockfile_name(&c) {
            return false;
        }
    }
    if !opts.hide_secrets && secret {
        return true;
    }
    if opts.include_binaries {
        return true;
    }
    if let Some(n) = name {
        let c = to_chars(n);
        if build_file_name(&c) {
            return true;
        }
    }
    if let Some(e) = ext {
        let c = to_chars(e);
        if doc_extension(&c) || web_extension(&c) || code_extension(&c) {
            return true;
        }
        if opts.include_assets && asset_extension(&c) {
            return true;
        }
    }
    false
}

/// Whether a path is relevant for the listing. By default source, configuration
/// and text files are; assets and binaries are kept on request.
pub fn is_relevant_path(p: &FilePath, opts: &FilterOptions) -> (r: bool)
    ensures
        r == is_relevant(p@, *opts),
{
    let secret = is_secret_path(p);
    match p.file_name() {
        Some(name) => {
            let lower = to_lower(name);
            match name_extension(name) {
                Some(e) => {
                    let ext = to_lower(e);
                    verdict(Some(name), Some(lower.as_str()), secret, Some(ext.as_str()), opts)
                },
                None => verdict(Some(name), Some(lower.as_str()), secret, None, opts),
            }
        },
        None => verdict(None, None, secret, None, opts),
    }
}

/// A file that is secret-like, and neither junk nor a lockfile, is kept
/// whenever secrets are not hidden, whatever its extension and the other
/// options.
pub proof fn lemma_secrets_shown(p: Seq<Seq<char>>, opts: FilterOptions)
    requires
        !opts.hide_secrets,
        is_secret(p),
        file_name_of(p) is Some ==> !is_junk_name(lowercase(file_name_of(p)->0)),
        file_name_of(p) is Some ==> !is_lock_name(lowercase(file_name_of(p)->0)),
    ensures
        is_relevant(p, opts),
{
}

} // verus!
