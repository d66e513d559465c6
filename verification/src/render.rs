//! Rendering a tree as indented text: at each level the directories in the
//! order of their names, then the files without regard to case.

use vstd::prelude::*;
use vstd::string::*;
use crate::sorting::{names_of, sort_files, sorted_files};
use crate::tree::{limit_of, lemma_view_fields, TreeModel, TreeNode};

verus! {

/// The width of one level of indentation, in spaces.
pub const INDENT_SPACES: usize = 5;

/// One line of a rendered tree below the root's own: a directory or a file,
/// by its path from the root. Its depth is the length of that path, and its
/// name the path's last component.
pub struct Entry {
    pub path: Seq<Seq<char>>,
    pub is_dir: bool,
}

/// Whether the children of a directory at depth `level + 1` are shown under
/// a depth limit.
pub open spec fn descends(level: nat, limit: Option<nat>) -> bool {
    match limit {
        Some(m) => level + 1 < m,
        None => true,
    }
}

/// The line of the directory at the given path.
pub open spec fn dir_entry(path: Seq<Seq<char>>) -> Entry {
    Entry { path, is_dir: true }
}

/// The line of the file at the given path.
pub open spec fn file_entry(path: Seq<Seq<char>>) -> Entry {
    Entry { path, is_dir: false }
}

/// The lines of the files of the directory at path `at`, in the order given.
pub open spec fn file_entries(at: Seq<Seq<char>>, files: Seq<Seq<char>>) -> Seq<Entry> {
    files.map_values(|f: Seq<char>| file_entry(at.push(f)))
}

/// What is shown below the child directory `child` of the directory at path
/// `at`: its content, unless the depth limit hides it.
pub open spec fn entries_in_child(child: TreeModel, at: Seq<Seq<char>>, limit: Option<nat>) -> Seq<
    Entry,
>
    decreases child, child.dirs.len() + 2, 0nat,
{
    if descends(at.len(), limit) {
        entries_below(child, at.push(child.name), limit)
    } else {
        Seq::empty()
    }
}

/// The lines for the first `k` child directories of `t`, which stands at
/// path `at`: each child's own line, followed by what is shown below it.
pub open spec fn entries_of_dirs(
    t: TreeModel,
    k: nat,
    at: Seq<Seq<char>>,
    limit: Option<nat>,
) -> Seq<Entry>
    decreases t, k, 0nat,
{
    if k == 0 || k > t.dirs.len() {
        Seq::empty()
    } else {
        let child = t.dirs[k - 1];
        entries_of_dirs(t, (k - 1) as nat, at, limit) + seq![dir_entry(at.push(child.name))]
            + entries_in_child(child, at, limit)
    }
}

/// The lines below the directory `t`, which stands at path `at`: its child
/// directories in their order, each followed by what is shown below it, then
/// its files in the order of files.
pub open spec fn entries_below(t: TreeModel, at: Seq<Seq<char>>, limit: Option<nat>) -> Seq<Entry>
    decreases t, t.dirs.len() + 1, 0nat,
{
    entries_of_dirs(t, t.dirs.len(), at, limit) + file_entries(at, sorted_files(t.files))
}

/// All lines of a rendered tree below the root's own.
pub open spec fn entries(t: TreeModel, limit: Option<nat>) -> Seq<Entry> {
    entries_below(t, Seq::empty(), limit)
}

/// The tree as rendering leaves it: the files of every directory whose
/// content is shown stand in the order of files.
pub open spec fn settled(t: TreeModel, level: nat, limit: Option<nat>) -> TreeModel
    decreases t,
{
    TreeModel {
        name: t.name,
        dirs: Seq::new(
            t.dirs.len(),
            |i: int|
                if 0 <= i < t.dirs.len() && descends(level, limit) {
                    settled(t.dirs[i], level + 1, limit)
                } else {
                    t.dirs[i]
                },
        ),
        files: sorted_files(t.files),
    }
}

/// A run of `n` spaces.
pub open spec fn spaces(n: nat) -> Seq<char> {
    Seq::new(n, |i: int| ' ')
}

/// The text of a line: its indentation, the name, and a slash after a
/// directory.
pub open spec fn line_of(e: Entry, indent: nat) -> Seq<char> {
    spaces(indent * e.path.len()) + e.path.last() + if e.is_dir {
        seq!['/']
    } else {
        Seq::empty()
    }
}

/// The texts of lines.
pub open spec fn lines_of(es: Seq<Entry>, indent: nat) -> Seq<Seq<char>> {
    es.map_values(|e: Entry| line_of(e, indent))
}

/// Lines joined by newlines, with none after the last.
pub open spec fn joined(lines: Seq<Seq<char>>) -> Seq<char>
    decreases lines.len(),
{
    if lines.len() == 0 {
        Seq::empty()
    } else if lines.len() == 1 {
        lines[0]
    } else {
        joined(lines.drop_last()) + seq!['\n'] + lines.last()
    }
}

/// The text of a rendered tree: the root's name with a slash, then the
/// lines below it.
pub open spec fn tree_text(t: TreeModel, indent: nat, limit: Option<nat>) -> Seq<char> {
    joined(seq![t.name + seq!['/']] + lines_of(entries(t, limit), indent))
}

/// Whether `budget` levels are left at depth `level` under a depth limit.
pub open spec fn budget_at(budget: Option<usize>, level: nat, limit: Option<nat>) -> bool {
    match (budget, limit) {
        (Some(b), Some(m)) => b + level == m,
        (None, None) => true,
        _ => false,
    }
}

/// A string of `n` spaces.
pub fn spaces_string(n: usize) -> (r: String)
    ensures
        r@ == spaces(n as nat),
{
    let mut r = String::new();
    let mut i: usize = 0;
    proof {
        reveal_strlit(" ");
        assert(r@ =~= spaces(0));
    }
    while i < n
        invariant
            i <= n,
            r@ == spaces(i as nat),
            " "@ == seq![' '],
        decreases n - i,
    {
        r.append(" ");
        assert(r@ =~= spaces((i + 1) as nat));
        i = i + 1;
    }
    r
}

/// The text of one line.
fn line(prefix: &str, name: &str, is_dir: bool) -> (r: String)
    ensures
        r@ == prefix@ + name@ + if is_dir { seq!['/'] } else { Seq::empty() },
{
    let mut r = String::from_str(prefix);
    r.append(name);
    if is_dir {
        proof {
            reveal_strlit("/");
            assert("/"@ =~= seq!['/']);
        }
        r.append("/");
    } else {
        assert(r@ =~= prefix@ + name@ + Seq::<char>::empty());
    }
    r
}

/// Joins lines by newlines, with none after the last.
pub fn join_lines(lines: &Vec<String>) -> (r: String)
    ensures
        r@ == joined(names_of(lines@)),
{
    let mut r = String::new();
    let mut i: usize = 0;
    let ghost all = names_of(lines@);
    proof {
        reveal_strlit("\n");
        assert("\n"@ =~= seq!['\n']);
        assert(all.take(0) =~= Seq::empty());
    }
    while i < lines.len()
        invariant
            i <= lines.len(),
            all == names_of(lines@),
            "\n"@ == seq!['\n'],
            r@ == joined(all.take(i as int)),
        decreases lines.len() - i,
    {
        let ghost done = all.take(i as int);
        let ghost next = all.take(i + 1);
        proof {
            assert(next.drop_last() =~= done);
            assert(next.last() == lines[i as int]@);
        }
        if i > 0 {
            r.append("\n");
        } else {
            assert(r@ =~= Seq::<char>::empty());
            assert(Seq::<char>::empty() + lines[i as int]@ =~= lines[i as int]@);
        }
        r.append(lines[i].as_str());
        i = i + 1;
    }
    assert(all.take(i as int) =~= all);
    r
}

/// Renders what stands below one directory, and sorts its files.
fn render_level(
    n: &mut TreeNode,
    prefix: &str,
    unit: &str,
    budget: Option<usize>,
    lines: &mut Vec<String>,
    Ghost(at): Ghost<Seq<Seq<char>>>,
    Ghost(indent): Ghost<nat>,
    Ghost(limit): Ghost<Option<nat>>,
)
    requires
        prefix@ == spaces(indent * (at.len() + 1)),
        unit@ == spaces(indent),
        budget_at(budget, at.len(), limit),
    ensures
        final(n)@ == settled(old(n)@, at.len(), limit),
        names_of(final(lines)@) == names_of(old(lines)@) + lines_of(
            entries_below(old(n)@, at, limit),
            indent,
        ),
    decreases old(n)@,
{
    let ghost o = n@;
    let ghost level = at.len();
    let ghost start = names_of(lines@);
    let enter: bool = match budget {
        Some(b) => b >= 2,
        None => true,
    };
    let inner: Option<usize> = match budget {
        Some(b) => if b >= 2 {
            Some((b - 1) as usize)
        } else {
            Some(b)
        },
        None => None,
    };
    let mut deeper = String::from_str(prefix);
    deeper.append(unit);
    proof {
        assert(enter == descends(level, limit));
        assert(indent * (level + 1) + indent == indent * (level + 2)) by (nonlinear_arith);
        assert(deeper@ =~= spaces(indent * (level + 2)));
        assert(names_of(lines@) =~= start + lines_of(entries_of_dirs(o, 0, at, limit), indent));
        lemma_view_fields(*n);
    }
    let count: usize = n.dirs.len();
    let mut i: usize = 0;
    while i < count
        invariant
            i <= count,
            level == at.len(),
            count == o.dirs.len(),
            n.dirs.len() == count,
            n.name == old(n).name,
            n.files == old(n).files,
            o == old(n)@,
            enter == descends(level, limit),
            enter ==> budget_at(inner, level + 1, limit),
            prefix@ == spaces(indent * (level + 1)),
            deeper@ == spaces(indent * (level + 2)),
            unit@ == spaces(indent),
            forall|j: int|
                0 <= j < i ==> (#[trigger] n.dirs[j])@ == if enter {
                    settled(o.dirs[j], level + 1, limit)
                } else {
                    o.dirs[j]
                },
            forall|j: int| i <= j < count ==> (#[trigger] n.dirs[j])@ == o.dirs[j],
            names_of(lines@) == start + lines_of(
                entries_of_dirs(o, i as nat, at, limit),
                indent,
            ),
        decreases count - i,
    {
        let ghost sofar = names_of(lines@);
        let ghost child = o.dirs[i as int];
        proof {
            lemma_view_fields(n.dirs[i as int]);
        }
        lines.push(line(prefix, n.dirs[i].name.as_str(), true));
        let ghost here = at.push(child.name);
        let ghost own = seq![dir_entry(here)];
        proof {
            assert(here.len() == level + 1);
            assert(here.last() == child.name);
            assert(names_of(lines@) =~= sofar + lines_of(own, indent));
        }
        if enter {
            let ghost listed = names_of(lines@);
            render_level(
                &mut n.dirs[i],
                deeper.as_str(),
                unit,
                inner,
                lines,
                Ghost(here),
                Ghost(indent),
                Ghost(limit),
            );
            proof {
                assert(names_of(lines@) == listed + lines_of(
                    entries_below(child, here, limit),
                    indent,
                ));
            }
        }
        proof {
            let below = entries_in_child(child, at, limit);
            let upto = entries_of_dirs(o, i as nat, at, limit);
            assert(entries_of_dirs(o, (i + 1) as nat, at, limit) == upto + own + below);
            assert(lines_of(upto + own + below, indent) =~= lines_of(upto, indent) + lines_of(
                own,
                indent,
            ) + lines_of(below, indent));
            assert(names_of(lines@) =~= start + lines_of(upto + own + below, indent));
        }
        i = i + 1;
    }
    sort_files(&mut n.files);
    let ghost sorted = sorted_files(o.files);
    let ghost dirs_done = names_of(lines@);
    proof {
        lemma_view_fields(*n);
        assert(names_of(n.files@) == sorted);
        assert(n@.dirs =~= settled(o, level, limit).dirs);
        assert(n@ == settled(o, level, limit));
        assert(file_entries(at, sorted.take(0)) =~= Seq::empty());
        assert(names_of(lines@) =~= dirs_done + lines_of(
            file_entries(at, sorted.take(0)),
            indent,
        ));
    }
    let mut k: usize = 0;
    while k < n.files.len()
        invariant
            k <= n.files.len(),
            names_of(n.files@) == sorted,
            prefix@ == spaces(indent * (level + 1)),
            level == at.len(),
            names_of(lines@) == dirs_done + lines_of(
                file_entries(at, sorted.take(k as int)),
                indent,
            ),
        decreases n.files.len() - k,
    {
        let ghost sofar = names_of(lines@);
        lines.push(line(prefix, n.files[k].as_str(), false));
        proof {
            let f = sorted[k as int];
            assert(f == n.files[k as int]@);
            let e = file_entry(at.push(f));
            assert(sorted.take(k + 1) =~= sorted.take(k as int).push(f));
            assert(file_entries(at, sorted.take(k + 1)) =~= file_entries(
                at,
                sorted.take(k as int),
            ).push(e));
            assert(e.path.len() == level + 1 && e.path.last() == f);
            assert(line_of(e, indent) == prefix@ + f + Seq::<char>::empty());
            assert(names_of(lines@) =~= sofar.push(line_of(e, indent)));
            assert(lines_of(file_entries(at, sorted.take(k + 1)), indent) =~= lines_of(
                file_entries(at, sorted.take(k as int)),
                indent,
            ).push(line_of(e, indent)));
        }
        k = k + 1;
    }
    proof {
        assert(sorted.take(k as int) =~= sorted);
        let ds = entries_of_dirs(o, o.dirs.len(), at, limit);
        let fs = file_entries(at, sorted);
        assert(lines_of(ds + fs, indent) =~= lines_of(ds, indent) + lines_of(fs, indent));
    }
}

/// Renders the tree as text: the root's line, then at each level the
/// directories in the order of their names, each with a trailing slash and
/// followed by its content, then the files in their order. Every level is
/// indented by `indent` more spaces. Under a depth limit a directory at the
/// limit is listed without its content. The lines are joined by newlines,
/// and the files of every directory that is shown are left sorted.
pub fn render_tree_text(tree: &mut TreeNode, indent: usize, max_depth: Option<usize>) -> (text:
    String)
    ensures
        text@ == tree_text(old(tree)@, indent as nat, limit_of(max_depth)),
        final(tree)@ == settled(old(tree)@, 0, limit_of(max_depth)),
{
    let ghost o = tree@;
    let ghost limit = limit_of(max_depth);
    let mut lines: Vec<String> = Vec::new();
    let unit = spaces_string(indent);
    proof {
        lemma_view_fields(*tree);
        assert(spaces(0) =~= Seq::empty());
        assert((indent as nat) * 0 == 0) by (nonlinear_arith);
        assert((indent as nat) * 1 == indent) by (nonlinear_arith);
    }
    let empty = String::new();
    lines.push(line(empty.as_str(), tree.name.as_str(), true));
    proof {
        assert(lines@[0]@ =~= o.name + seq!['/']);
        assert(names_of(lines@) =~= seq![o.name + seq!['/']]);
    }
    render_level(
        tree,
        unit.as_str(),
        unit.as_str(),
        max_depth,
        &mut lines,
        Ghost(Seq::empty()),
        Ghost(indent as nat),
        Ghost(limit),
    );
    join_lines(&lines)
}

} // verus!
