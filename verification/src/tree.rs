//! The directory tree: its mathematical model, and how paths fold into it.

use vstd::prelude::*;
use vstd::multiset::Multiset;
use vstd::string::*;
use crate::path::{path_views, relative_to, root_name, root_name_of, FilePath};
use crate::order::{
    compare_names, lemma_name_lt_irreflexive, lemma_name_total, lemma_name_lt_transitive,
    name_lt, Order,
};

verus! {

/// What a directory tree is: the name of a directory, its child directories
/// in the order of their names, and the names of the files directly in it.
/// Child directories stand for a mapping from name to child; the names of
/// files and of directories are kept apart and may coincide.
pub struct TreeModel {
    pub name: Seq<char>,
    pub dirs: Seq<TreeModel>,
    pub files: Seq<Seq<char>>,
}

/// One directory level of the tree.
#[derive(Debug)]
pub struct TreeNode {
    /// The directory's name.
    pub name: String,
    /// The child directories, in the order of their names.
    pub dirs: Vec<TreeNode>,
    /// The names of the files directly in the directory.
    pub files: Vec<String>,
}

/// How many levels may still be entered below a level from which `budget`
/// levels may be entered.
pub open spec fn below(budget: Option<nat>) -> Option<nat> {
    match budget {
        Some(m) => Some((m - 1) as nat),
        None => None,
    }
}

/// A limit as a natural number.
pub open spec fn limit_of(limit: Option<usize>) -> Option<nat> {
    match limit {
        Some(m) => Some(m as nat),
        None => None,
    }
}

/// Whether a depth is within a limit; no limit admits every depth.
pub open spec fn within(limit: Option<nat>, depth: nat) -> bool {
    match limit {
        Some(m) => depth <= m,
        None => true,
    }
}

impl TreeModel {
    /// A directory without children or files.
    pub open spec fn leaf(name: Seq<char>) -> TreeModel {
        TreeModel { name, dirs: Seq::empty(), files: Seq::empty() }
    }

    /// The child directories stand in strictly increasing order of their
    /// names, so no name occurs twice, at every level.
    pub open spec fn wf(self) -> bool
        decreases self,
    {
        &&& forall|i: int, j: int|
            0 <= i < j < self.dirs.len() ==> name_lt(
                #[trigger] self.dirs[i].name,
                #[trigger] self.dirs[j].name,
            )
        &&& forall|i: int| 0 <= i < self.dirs.len() ==> (#[trigger] self.dirs[i]).wf()
    }

    /// Whether a child directory has the given name.
    pub open spec fn has_dir(self, name: Seq<char>) -> bool {
        exists|i: int| 0 <= i < self.dirs.len() && (#[trigger] self.dirs[i]).name == name
    }

    /// The place of the child directory with the given name.
    pub open spec fn dir_index(self, name: Seq<char>) -> int {
        choose|i: int| 0 <= i < self.dirs.len() && (#[trigger] self.dirs[i]).name == name
    }

    /// The child directory with the given name.
    pub open spec fn dir(self, name: Seq<char>) -> TreeModel {
        self.dirs[self.dir_index(name)]
    }

    /// Whether the directory path `d`, relative to this directory, leads to a
    /// directory of the tree. The empty path leads to this directory itself.
    pub open spec fn has_dir_path(self, d: Seq<Seq<char>>) -> bool
        decreases d.len(),
    {
        if d.len() == 0 {
            true
        } else {
            self.has_dir(d[0]) && self.dir(d[0]).has_dir_path(d.drop_first())
        }
    }

    /// How often the file path `p`, relative to this directory, occurs in the
    /// tree: how often its final name stands among the files of the directory
    /// that the components before it lead to.
    pub open spec fn file_count(self, p: Seq<Seq<char>>) -> nat
        decreases p.len(),
    {
        if p.len() == 0 {
            0
        } else if p.len() == 1 {
            self.files.to_multiset().count(p[0])
        } else if self.has_dir(p[0]) {
            self.dir(p[0]).file_count(p.drop_first())
        } else {
            0
        }
    }
}

/// Whether inserting the path `q` with `budget` levels to enter adds the
/// file path `p`: `p` is `q`, and `q` names a file within the budget.
pub open spec fn adds_file(q: Seq<Seq<char>>, budget: Option<nat>, p: Seq<Seq<char>>) -> bool {
    p == q && q.len() >= 1 && within(budget, q.len())
}

/// Whether inserting the path `q` with `budget` levels to enter opens the
/// directory path `d`: `d` is a proper, non-empty prefix of `q` within the
/// budget.
pub open spec fn opens_dir(q: Seq<Seq<char>>, budget: Option<nat>, d: Seq<Seq<char>>) -> bool {
    &&& 1 <= d.len() < q.len()
    &&& within(budget, d.len())
    &&& d == q.take(d.len() as int)
}

/// How often the file path `p` is due in a tree built from the relative
/// paths `qs` under a depth limit: as often as it stands among them, if it
/// names a file within the limit.
pub open spec fn due_files(qs: Seq<Seq<Seq<char>>>, limit: Option<nat>, p: Seq<Seq<char>>) -> nat {
    if p.len() >= 1 && within(limit, p.len()) {
        qs.to_multiset().count(p)
    } else {
        0
    }
}

/// Whether the directory path `d` is due in a tree built from the relative
/// paths `qs` under a depth limit: the empty path always, any other where it
/// is within the limit and a proper prefix of one of the paths.
pub open spec fn due_dir(qs: Seq<Seq<Seq<char>>>, limit: Option<nat>, d: Seq<Seq<char>>) -> bool {
    d.len() == 0 || exists|i: int| 0 <= i < qs.len() && opens_dir(#[trigger] qs[i], limit, d)
}

/// Whether `t` is the tree of the relative paths `qs` under a depth limit:
/// well formed, and holding exactly the files and directories that are due.
pub open spec fn is_tree_of(t: TreeModel, qs: Seq<Seq<Seq<char>>>, limit: Option<nat>) -> bool {
    &&& t.wf()
    &&& forall|p: Seq<Seq<char>>| #[trigger] t.file_count(p) == due_files(qs, limit, p)
    &&& forall|d: Seq<Seq<char>>| #[trigger] t.has_dir_path(d) == due_dir(qs, limit, d)
}

/// The paths of a list, each relative to `root`.
pub open spec fn relative_paths(paths: Seq<Seq<Seq<char>>>, root: Seq<Seq<char>>) -> Seq<
    Seq<Seq<char>>,
> {
    paths.map_values(|p: Seq<Seq<char>>| relative_to(p, root))
}

/// In a well-formed tree a name finds the one child that bears it.
pub proof fn lemma_dir_unique(m: TreeModel, i: int)
    requires
        m.wf(),
        0 <= i < m.dirs.len(),
    ensures
        m.has_dir(m.dirs[i].name),
        m.dir_index(m.dirs[i].name) == i,
        m.dir(m.dirs[i].name) == m.dirs[i],
{
    let x = m.dirs[i].name;
    let j = m.dir_index(x);
    assert(0 <= j < m.dirs.len() && m.dirs[j].name == x);
    if j < i {
        assert(name_lt(m.dirs[j].name, m.dirs[i].name));
        lemma_name_lt_irreflexive(x);
    }
    if i < j {
        assert(name_lt(m.dirs[i].name, m.dirs[j].name));
        lemma_name_lt_irreflexive(x);
    }
}

/// A directory without children or files holds no file path and no
/// directory path but the empty one.
pub proof fn lemma_leaf_holds_nothing(name: Seq<char>, p: Seq<Seq<char>>)
    ensures
        TreeModel::leaf(name).file_count(p) == 0,
        TreeModel::leaf(name).has_dir_path(p) == (p.len() == 0),
{
    let l = TreeModel::leaf(name);
    assert(!l.has_dir(p[0]));
    assert(l.files.to_multiset() =~= Multiset::empty()) by {
        l.files.to_multiset_ensures();
        assert(l.files.to_multiset().len() == 0);
    }
}

/// What pushing a file name onto a directory's files does to the paths the
/// tree holds.
proof fn lemma_file_pushed(
    o: TreeModel,
    n: TreeModel,
    q: Seq<Seq<char>>,
    budget: Option<nat>,
    p: Seq<Seq<char>>,
)
    requires
        q.len() == 1,
        within(budget, 1),
        n.dirs == o.dirs,
        n.files == o.files.push(q[0]),
    ensures
        n.file_count(p) == o.file_count(p) + if adds_file(q, budget, p) { 1nat } else { 0nat },
        n.has_dir_path(p) == (o.has_dir_path(p) || opens_dir(q, budget, p)),
{
    broadcast use vstd::seq_lib::group_to_multiset_ensures;
    if p.len() == 1 {
        if p[0] == q[0] {
            assert(p =~= q);
        }
    }
    if p.len() >= 1 {
        assert(n.has_dir(p[0]) == o.has_dir(p[0]));
        assert(n.dir(p[0]) == o.dir(p[0]));
    }
}

/// Two non-empty sequences with the same head and the same tail are the same.
proof fn lemma_same_head_and_tail<A>(p: Seq<A>, q: Seq<A>)
    requires
        p.len() >= 1,
        q.len() >= 1,
        p[0] == q[0],
        p.drop_first() == q.drop_first(),
    ensures
        p == q,
{
    assert(p.len() == q.len()) by {
        assert(p.drop_first().len() == p.len() - 1);
        assert(q.drop_first().len() == q.len() - 1);
    }
    assert forall|i: int| 0 <= i < p.len() implies p[i] == q[i] by {
        if i > 0 {
            assert(p.drop_first()[i - 1] == p[i]);
            assert(q.drop_first()[i - 1] == q[i]);
        }
    }
    assert(p =~= q);
}

/// What replacing or creating the child `x` of a directory does to the paths
/// the tree holds, given what happened below that child.
proof fn lemma_descended(
    o: TreeModel,
    n: TreeModel,
    c: TreeModel,
    cn: TreeModel,
    q: Seq<Seq<char>>,
    budget: Option<nat>,
    p: Seq<Seq<char>>,
)
    requires
        q.len() >= 2,
        within(budget, 1),
        n.files == o.files,
        n.has_dir(q[0]),
        n.dir(q[0]) == cn,
        c == if o.has_dir(q[0]) { o.dir(q[0]) } else { TreeModel::leaf(q[0]) },
        forall|y: Seq<char>|
            y != q[0] ==> n.has_dir(y) == o.has_dir(y) && (o.has_dir(y) ==> n.dir(y) == o.dir(y)),
        cn.file_count(p.drop_first()) == c.file_count(p.drop_first()) + if adds_file(
            q.drop_first(),
            below(budget),
            p.drop_first(),
        ) { 1nat } else { 0nat },
        cn.has_dir_path(p.drop_first()) == (c.has_dir_path(p.drop_first()) || opens_dir(
            q.drop_first(),
            below(budget),
            p.drop_first(),
        )),
    ensures
        n.file_count(p) == o.file_count(p) + if adds_file(q, budget, p) { 1nat } else { 0nat },
        n.has_dir_path(p) == (o.has_dir_path(p) || opens_dir(q, budget, p)),
{
    let x = q[0];
    let q1 = q.drop_first();
    let p1 = p.drop_first();
    lemma_leaf_holds_nothing(x, p1);
    if p.len() >= 1 && p[0] == x {
        // the file path
        if p.len() >= 2 {
            if p1 == q1 {
                lemma_same_head_and_tail(p, q);
            }
            if p == q {
                assert(p1 =~= q1);
            }
            assert(adds_file(q1, below(budget), p1) == adds_file(q, budget, p));
        }
        // the directory path
        if p.len() < q.len() {
            assert(q1.take(p1.len() as int) =~= q.take(p.len() as int).drop_first());
            if p1 == q1.take(p1.len() as int) {
                lemma_same_head_and_tail(p, q.take(p.len() as int));
            }
            if p == q.take(p.len() as int) {
                assert(p1 =~= q1.take(p1.len() as int));
            }
        }
        if p.len() == 1 {
            assert(p =~= q.take(1));
            assert(opens_dir(q, budget, p));
        } else {
            assert(opens_dir(q1, below(budget), p1) == opens_dir(q, budget, p));
        }
    } else if p.len() >= 1 {
        if p.len() < q.len() {
            assert(q.take(p.len() as int)[0] == x);
        }
        assert(!opens_dir(q, budget, p));
    }
}

/// How the children of `n` come from those of `o` when the child at `idx` was
/// created, or was replaced by one of the same name.
pub open spec fn child_changed(o: TreeModel, n: TreeModel, idx: int, created: bool) -> bool {
    &&& 0 <= idx < n.dirs.len()
    &&& if created {
        &&& n.dirs.len() == o.dirs.len() + 1
        &&& !o.has_dir(n.dirs[idx].name)
        &&& forall|j: int|
            0 <= j < o.dirs.len() ==> (#[trigger] o.dirs[j]) == n.dirs[if j < idx {
                j
            } else {
                j + 1
            }]
    } else {
        &&& n.dirs.len() == o.dirs.len()
        &&& n.dirs[idx].name == o.dirs[idx].name
        &&& forall|j: int|
            0 <= j < o.dirs.len() && j != idx ==> (#[trigger] o.dirs[j]) == n.dirs[j]
    }
}

/// A change to one child leaves the children of every other name as they
/// were.
proof fn lemma_other_children(o: TreeModel, n: TreeModel, idx: int, created: bool, y: Seq<char>)
    requires
        o.wf(),
        n.wf(),
        child_changed(o, n, idx, created),
        y != n.dirs[idx].name,
    ensures
        n.has_dir(y) == o.has_dir(y),
        o.has_dir(y) ==> n.dir(y) == o.dir(y),
{
    if o.has_dir(y) {
        let j = o.dir_index(y);
        let k = if created && j >= idx { j + 1 } else { j };
        assert(o.dirs[j] == n.dirs[k]);
        lemma_dir_unique(o, j);
        lemma_dir_unique(n, k);
    }
    if n.has_dir(y) {
        let k = n.dir_index(y);
        let j = if created && k > idx { k - 1 } else { k };
        assert(o.dirs[j] == n.dirs[k]);
        assert(o.dirs[j].name == y);
    }
}

impl View for TreeNode {
    type V = TreeModel;

    open spec fn view(&self) -> TreeModel
        decreases self,
    {
        TreeModel {
            name: self.name@,
            dirs: Seq::new(
                self.dirs.len() as nat,
                |i: int|
                    if 0 <= i < self.dirs.len() {
                        self.dirs[i]@
                    } else {
                        TreeModel::leaf(Seq::empty())
                    },
            ),
            files: self.files@.map_values(|s: String| s@),
        }
    }
}

/// How the model of a node comes from its fields.
pub proof fn lemma_view_fields(t: TreeNode)
    ensures
        t@.name == t.name@,
        t@.files == t.files@.map_values(|s: String| s@),
        t@.dirs.len() == t.dirs.len(),
        forall|i: int| 0 <= i < t.dirs.len() ==> #[trigger] t@.dirs[i] == t.dirs[i]@,
{
}

impl TreeNode {
    /// Whether the child directories stand in the order of their names at
    /// every level.
    pub open spec fn wf(&self) -> bool {
        self@.wf()
    }

    /// A directory of the given name, without children or files.
    pub fn new(name: String) -> (r: TreeNode)
        ensures
            r@ == TreeModel::leaf(name@),
            r.wf(),
    {
        let r = TreeNode { name, dirs: Vec::new(), files: Vec::new() };
        assert(r@.dirs =~= Seq::empty());
        assert(r@.files =~= Seq::empty());
        r
    }

    /// The place among the child directories where a child of the given name
    /// stands, or would have to stand, and whether one stands there.
    fn locate(&self, name: &str) -> (r: (usize, bool))
        ensures
            r.0 <= self@.dirs.len(),
            forall|j: int| 0 <= j < r.0 ==> name_lt((#[trigger] self@.dirs[j]).name, name@),
            r.1 ==> r.0 < self@.dirs.len() && self@.dirs[r.0 as int].name == name@,
            !r.1 ==> r.0 == self@.dirs.len() || name_lt(name@, self@.dirs[r.0 as int].name),
    {
        let mut i: usize = 0;
        while i < self.dirs.len()
            invariant
                i <= self.dirs.len(),
                self@.dirs.len() == self.dirs.len(),
                forall|j: int| 0 <= j < i ==> name_lt((#[trigger] self@.dirs[j]).name, name@),
            decreases self.dirs.len() - i,
        {
            proof {
                lemma_view_fields(self.dirs[i as int]);
            }
            match compare_names(self.dirs[i].name.as_str(), name) {
                Order::Less => {},
                Order::Equal => {
                    return (i, true);
                },
                Order::Greater => {
                    proof {
                        lemma_name_total(self.dirs[i as int].name@, name@);
                    }
                    return (i, false);
                },
            }
            i = i + 1;
        }
        (i, false)
    }

    /// Gets or creates the child directory of the given name, and says where
    /// it stands.
    fn child_slot(&mut self, name: &String) -> (idx: usize)
        requires
            old(self).wf(),
        ensures
            final(self).wf(),
            final(self)@.name == old(self)@.name,
            final(self)@.files == old(self)@.files,
            idx < final(self)@.dirs.len(),
            final(self)@.dirs[idx as int].name == name@,
            old(self)@.has_dir(name@) ==> final(self)@ == old(self)@,
            !old(self)@.has_dir(name@) ==> final(self)@.dirs[idx as int] == TreeModel::leaf(name@),
            child_changed(old(self)@, final(self)@, idx as int, !old(self)@.has_dir(name@)),
    {
        let (idx, found) = self.locate(name.as_str());
        let ghost o = self@;
        if found {
            return idx;
        }
        proof {
            // every child from `idx` on comes after the name
            assert forall|j: int| idx <= j < o.dirs.len() implies name_lt(
                name@,
                (#[trigger] o.dirs[j]).name,
            ) by {
                if j > idx {
                    assert(name_lt(o.dirs[idx as int].name, o.dirs[j].name));
                    lemma_name_lt_transitive(name@, o.dirs[idx as int].name, o.dirs[j].name);
                }
            }
            assert(!o.has_dir(name@)) by {
                if o.has_dir(name@) {
                    let j = o.dir_index(name@);
                    lemma_name_lt_irreflexive(name@);
                }
            }
        }
        let child = TreeNode::new(name.clone());
        self.dirs.insert(idx, child);
        proof {
            let n = self@;
            assert(n.dirs =~= o.dirs.insert(idx as int, TreeModel::leaf(name@)));
            assert(n.files == o.files);
            assert(n.wf()) by {
                assert forall|i: int, j: int| 0 <= i < j < n.dirs.len() implies name_lt(
                    #[trigger] n.dirs[i].name,
                    #[trigger] n.dirs[j].name,
                ) by {
                    if i < idx && j > idx {
                        assert(n.dirs[j] == o.dirs[j - 1]);
                        assert(name_lt(o.dirs[i].name, name@));
                        assert(name_lt(name@, o.dirs[j - 1].name));
                        lemma_name_lt_transitive(o.dirs[i].name, name@, o.dirs[j - 1].name);
                    } else if i < idx && j < idx {
                        assert(name_lt(o.dirs[i].name, o.dirs[j].name));
                    } else if i > idx {
                        assert(name_lt(o.dirs[i - 1].name, o.dirs[j - 1].name));
                    } else if i == idx {
                        assert(name_lt(name@, o.dirs[j - 1].name));
                    } else {
                        assert(name_lt(o.dirs[i].name, name@));
                    }
                }
                assert forall|i: int| 0 <= i < n.dirs.len() implies (#[trigger] n.dirs[i]).wf() by {
                    if i < idx {
                        assert(o.dirs[i].wf());
                    } else if i > idx {
                        assert(o.dirs[i - 1].wf());
                    }
                }
            }
        }
        idx
    }

    /// Inserts the file path that `path` holds from component `from` on,
    /// relative to this directory, entering at most `budget` levels: a
    /// directory is created for each component but the last as far as the
    /// budget reaches, and the last is added as a file where the budget
    /// reaches it.
    pub fn insert(&mut self, path: &FilePath, from: usize, budget: Option<usize>)
        requires
            old(self).wf(),
            from <= path@.len(),
        ensures
            final(self).wf(),
            final(self)@.name == old(self)@.name,
            forall|p: Seq<Seq<char>>| #[trigger]
                final(self)@.file_count(p) == old(self)@.file_count(p) + if adds_file(
                    path@.skip(from as int),
                    limit_of(budget),
                    p,
                ) { 1nat } else { 0nat },
            forall|d: Seq<Seq<char>>| #[trigger]
                final(self)@.has_dir_path(d) == (old(self)@.has_dir_path(d) || opens_dir(
                    path@.skip(from as int),
                    limit_of(budget),
                    d,
                )),
        decreases path@.len() - from,
    {
        let ghost o = self@;
        let ghost q = path@.skip(from as int);
        let ghost b = limit_of(budget);
        let n: usize = path.components.len();
        if from >= n {
            return;
        }
        let inner: Option<usize> = match budget {
            Some(m) => {
                if m == 0 {
                    return;
                }
                Some(m - 1)
            },
            None => None,
        };
        assert(q[0] == path.components[from as int]@);
        if from == n - 1 {
            self.files.push(path.components[from].clone());
            proof {
                let r = self@;
                assert(r.dirs =~= o.dirs);
                assert(r.files =~= o.files.push(q[0]));
                assert forall|p: Seq<Seq<char>>| #[trigger]
                    r.file_count(p) == o.file_count(p) + if adds_file(q, b, p) { 1nat } else { 0nat }
                by {
                    lemma_file_pushed(o, r, q, b, p);
                }
                assert forall|d: Seq<Seq<char>>| #[trigger]
                    r.has_dir_path(d) == (o.has_dir_path(d) || opens_dir(q, b, d))
                by {
                    lemma_file_pushed(o, r, q, b, d);
                }
            }
            return;
        }
        let idx = self.child_slot(&path.components[from]);
        let ghost mid = self@;
        let ghost c = mid.dirs[idx as int];
        let ghost created = !o.has_dir(q[0]);
        assert(self.dirs[idx as int]@ == c);
        assert(c.wf());
        self.dirs[idx].insert(path, from + 1, inner);
        proof {
            let r = self@;
            let cn = r.dirs[idx as int];
            assert(q.drop_first() =~= path@.skip(from + 1));
            assert(limit_of(inner) == below(b));
            assert(r.dirs =~= mid.dirs.update(idx as int, cn));
            assert(r.files == o.files);
            assert(child_changed(o, r, idx as int, created));
            assert(r.wf()) by {
                assert forall|i: int, j: int| 0 <= i < j < r.dirs.len() implies name_lt(
                    #[trigger] r.dirs[i].name,
                    #[trigger] r.dirs[j].name,
                ) by {
                    assert(name_lt(mid.dirs[i].name, mid.dirs[j].name));
                }
                assert forall|i: int| 0 <= i < r.dirs.len() implies (#[trigger] r.dirs[i]).wf() by {
                    if i != idx {
                        assert(mid.dirs[i].wf());
                    }
                }
            }
            lemma_dir_unique(r, idx as int);
            if !created {
                lemma_dir_unique(o, idx as int);
            }
            assert forall|y: Seq<char>| y != q[0] implies r.has_dir(y) == o.has_dir(y) && (o.has_dir(
                y,
            ) ==> r.dir(y) == o.dir(y)) by {
                lemma_other_children(o, r, idx as int, created, y);
            }
            assert forall|p: Seq<Seq<char>>| #[trigger]
                r.file_count(p) == o.file_count(p) + if adds_file(q, b, p) { 1nat } else { 0nat }
            by {
                lemma_descended(o, r, c, cn, q, b, p);
            }
            assert forall|d: Seq<Seq<char>>| #[trigger]
                r.has_dir_path(d) == (o.has_dir_path(d) || opens_dir(q, b, d))
            by {
                lemma_descended(o, r, c, cn, q, b, d);
            }
        }
    }
}

/// Builds the directory tree of a list of paths. The root node bears the
/// root directory's name. Each path is taken relative to the root and
/// inserted: a directory for every component but the last, a file for the
/// last, as far as the depth limit reaches. Depth counts path segments from
/// the root, a file directly in the root having depth 1.
pub fn build_tree(
    paths: &Vec<FilePath>,
    root: &FilePath,
    root_text: &str,
    max_depth: Option<usize>,
) -> (tree: TreeNode)
    ensures
        tree@.name == root_name_of(root@, root_text@),
        is_tree_of(tree@, relative_paths(path_views(paths@), root@), limit_of(max_depth)),
{
    let mut tree = TreeNode::new(root_name(root, root_text));
    let ghost qs = relative_paths(path_views(paths@), root@);
    let ghost limit = limit_of(max_depth);
    let mut i: usize = 0;
    proof {
        assert(qs.take(0) =~= Seq::empty());
        assert forall|p: Seq<Seq<char>>| #[trigger]
            tree@.file_count(p) == due_files(qs.take(0), limit, p)
        by {
            lemma_leaf_holds_nothing(tree@.name, p);
            assert(qs.take(0).to_multiset() =~= Multiset::empty()) by {
                qs.take(0).to_multiset_ensures();
                assert(qs.take(0).to_multiset().len() == 0);
            }
        }
        assert forall|d: Seq<Seq<char>>| #[trigger]
            tree@.has_dir_path(d) == due_dir(qs.take(0), limit, d)
        by {
            lemma_leaf_holds_nothing(tree@.name, d);
        }
    }
    while i < paths.len()
        invariant
            i <= paths.len(),
            qs == relative_paths(path_views(paths@), root@),
            qs.len() == paths.len(),
            limit == limit_of(max_depth),
            tree@.name == root_name_of(root@, root_text@),
            is_tree_of(tree@, qs.take(i as int), limit),
        decreases paths.len() - i,
    {
        let ghost before = tree@;
        let ghost done = qs.take(i as int);
        let from = paths[i].strip_len(root);
        let ghost q = paths[i as int]@.skip(from as int);
        assert(q == qs[i as int]);
        tree.insert(&paths[i], from, max_depth);
        proof {
            let next = qs.take(i + 1);
            assert(next =~= done.push(q));
            broadcast use vstd::seq_lib::group_to_multiset_ensures;
            assert forall|p: Seq<Seq<char>>| #[trigger]
                tree@.file_count(p) == due_files(next, limit, p)
            by {
                assert(before.file_count(p) == due_files(done, limit, p));
            }
            assert forall|d: Seq<Seq<char>>| #[trigger]
                tree@.has_dir_path(d) == due_dir(next, limit, d)
            by {
                assert(before.has_dir_path(d) == due_dir(done, limit, d));
                if due_dir(done, limit, d) && d.len() > 0 {
                    let k = choose|k: int| 0 <= k < done.len() && opens_dir(#[trigger] done[k], limit, d);
                    assert(next[k] == done[k]);
                }
                if opens_dir(q, limit, d) {
                    assert(next[i as int] == q);
                }
                if due_dir(next, limit, d) && d.len() > 0 {
                    let k = choose|k: int| 0 <= k < next.len() && opens_dir(#[trigger] next[k], limit, d);
                    if k < i {
                        assert(done[k] == next[k]);
                    }
                }
            }
        }
        i = i + 1;
    }
    assert(qs.take(i as int) =~= qs);
    tree
}

} // verus!
