//! The final output: the rendered tree, with an optional preamble, as text
//! that ends in a newline; or the tree itself with what describes the run.

use vstd::prelude::*;
use vstd::string::*;
use crate::discovery::{mode_label_of, DiscoveryMode};
use crate::render::{render_tree_text, settled, tree_text, INDENT_SPACES};
use crate::tree::{limit_of, TreeModel, TreeNode};

verus! {

/// The preamble that explains the listing to its reader.
pub open spec fn header_text(root: Seq<char>, mode: DiscoveryMode) -> Seq<char> {
    "# Tree for AI\n"@ + "root: "@ + root + "\n"@ + "mode: "@ + mode_label_of(mode) + "\n"@
        + "rules:\n"@
        + "- Work only with files/paths listed below unless explicitly asked to create new ones.\n"@
        + "- All paths are relative to the root above.\n"@
        + "- File contents are not included; ask if more context is needed.\n\n"@
}

/// A text that ends in a newline: the text itself where it does, else the
/// text with one added.
pub open spec fn newline_ended(s: Seq<char>) -> Seq<char> {
    if s.len() > 0 && s.last() == '\n' {
        s
    } else {
        s.push('\n')
    }
}

/// The whole text output: the preamble unless it is suppressed, then the
/// tree, ending in a newline.
pub open spec fn report_text(
    t: TreeModel,
    root: Seq<char>,
    mode: DiscoveryMode,
    no_header: bool,
    indent: nat,
    limit: Option<nat>,
) -> Seq<char> {
    newline_ended(
        if no_header {
            tree_text(t, indent, limit)
        } else {
            header_text(root, mode) + tree_text(t, indent, limit)
        },
    )
}

/// The structured output: the tree with what describes the run.
#[derive(Debug)]
pub struct Report {
    /// The resolved root, as text.
    pub root: String,
    /// How the candidate paths were found.
    pub mode: DiscoveryMode,
    /// The width of one level of indentation.
    pub indent: usize,
    /// How many files were left after filtering.
    pub files_count: usize,
    /// The tree.
    pub tree: TreeNode,
}

impl Report {
    /// The structured output for a tree and the run that gave it.
    pub fn new(root: String, mode: DiscoveryMode, files_count: usize, tree: TreeNode) -> (r: Report)
        ensures
            r.root == root,
            r.mode == mode,
            r.indent == INDENT_SPACES,
            r.files_count == files_count,
            r.tree == tree,
    {
        Report { root, mode, indent: INDENT_SPACES, files_count, tree }
    }
}

/// The preamble that explains the listing to its reader.
pub fn header(root: &str, mode: DiscoveryMode) -> (r: String)
    ensures
        r@ == header_text(root@, mode),
{
    let mut r = String::from_str("# Tree for AI\n");
    r.append("root: ");
    r.append(root);
    r.append("\n");
    r.append("mode: ");
    r.append(mode.label());
    r.append("\n");
    r.append("rules:\n");
    r.append(
        "- Work only with files/paths listed below unless explicitly asked to create new ones.\n",
    );
    r.append("- All paths are relative to the root above.\n");
    r.append("- File contents are not included; ask if more context is needed.\n\n");
    r
}

/// Ends a text in a newline, adding one unless it is there.
pub fn end_with_newline(text: String) -> (r: String)
    ensures
        r@ == newline_ended(text@),
        r@.len() > 0,
        r@.last() == '\n',
{
    let mut r = text;
    let n: usize = r.as_str().unicode_len();
    if n > 0 && r.as_str().get_char(n - 1) == '\n' {
        return r;
    }
    proof {
        reveal_strlit("\n");
        assert("\n"@ =~= seq!['\n']);
    }
    let ghost before = r@;
    r.append("\n");
    assert(r@ =~= before.push('\n'));
    r
}

/// The whole text output for a tree: the preamble unless it is suppressed,
/// then the rendered tree, ending in a newline. The files of every directory
/// that is shown are left sorted.
pub fn render_report(
    tree: &mut TreeNode,
    root: &str,
    mode: DiscoveryMode,
    no_header: bool,
    max_depth: Option<usize>,
) -> (text: String)
    ensures
        text@ == report_text(
            old(tree)@,
            root@,
            mode,
            no_header,
            INDENT_SPACES as nat,
            limit_of(max_depth),
        ),
        text@.len() > 0,
        text@.last() == '\n',
        final(tree)@ == settled(old(tree)@, 0, limit_of(max_depth)),
{
    let body = render_tree_text(tree, INDENT_SPACES, max_depth);
    if no_header {
        end_with_newline(body)
    } else {
        let mut out = header(root, mode);
        out.append(body.as_str());
        end_with_newline(out)
    }
}

} // verus!
