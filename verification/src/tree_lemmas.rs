//! What holds of every tree that the builder can return.

use vstd::prelude::*;
use crate::order::{lemma_name_lt_asymmetric, lemma_name_lt_irreflexive, lemma_name_total, name_lt};
use crate::tree::{
    due_dir, due_files, is_tree_of, lemma_dir_unique, opens_dir, TreeModel,
};

verus! {

/// Two trees have the same content: the same name, the same files whatever
/// their order, and child for child the same content.
pub open spec fn same_content(a: TreeModel, b: TreeModel) -> bool
    decreases a,
{
    &&& a.name == b.name
    &&& a.files.to_multiset() == b.files.to_multiset()
    &&& a.dirs.len() == b.dirs.len()
    &&& forall|i: int| 0 <= i < a.dirs.len() ==> same_content(#[trigger] a.dirs[i], b.dirs[i])
}

/// The nodes stand in strictly increasing order of their names.
pub open spec fn sorted_by_name(ds: Seq<TreeModel>) -> bool {
    forall|i: int, j: int|
        0 <= i < j < ds.len() ==> name_lt(#[trigger] ds[i].name, #[trigger] ds[j].name)
}

/// Whether one of the nodes bears the given name.
pub open spec fn names(ds: Seq<TreeModel>, n: Seq<char>) -> bool {
    exists|i: int| 0 <= i < ds.len() && (#[trigger] ds[i]).name == n
}

/// Two sorted rows of nodes that bear the same names bear them at the same
/// places.
pub proof fn lemma_same_names(xs: Seq<TreeModel>, ys: Seq<TreeModel>)
    requires
        sorted_by_name(xs),
        sorted_by_name(ys),
        forall|n: Seq<char>| names(xs, n) == names(ys, n),
    ensures
        xs.len() == ys.len(),
        forall|i: int| 0 <= i < xs.len() ==> (#[trigger] xs[i]).name == ys[i].name,
    decreases xs.len(),
{
    if xs.len() == 0 {
        if ys.len() > 0 {
            assert(names(ys, ys[0].name));
            assert(names(xs, ys[0].name));
        }
    } else if ys.len() == 0 {
        assert(names(xs, xs[0].name));
        assert(names(ys, xs[0].name));
    } else {
        let x = xs.last().name;
        let y = ys.last().name;
        // each last name is the greatest of its row, and stands in the other
        assert(names(xs, x));
        assert(names(ys, x));
        let jx = choose|j: int| 0 <= j < ys.len() && (#[trigger] ys[j]).name == x;
        assert(names(ys, y));
        assert(names(xs, y));
        let iy = choose|i: int| 0 <= i < xs.len() && (#[trigger] xs[i]).name == y;
        assert(x == y) by {
            lemma_name_total(x, y);
            if name_lt(x, y) {
                if iy < xs.len() - 1 {
                    assert(name_lt(xs[iy].name, xs[xs.len() - 1].name));
                    lemma_name_lt_asymmetric(x, y);
                }
                lemma_name_lt_irreflexive(x);
            }
            if name_lt(y, x) {
                if jx < ys.len() - 1 {
                    assert(name_lt(ys[jx].name, ys[ys.len() - 1].name));
                    lemma_name_lt_asymmetric(y, x);
                }
                lemma_name_lt_irreflexive(y);
            }
        }
        let xs1 = xs.drop_last();
        let ys1 = ys.drop_last();
        assert forall|n: Seq<char>| names(xs1, n) == names(ys1, n) by {
            if names(xs1, n) {
                let i = choose|i: int| 0 <= i < xs1.len() && (#[trigger] xs1[i]).name == n;
                assert(xs[i].name == n);
                assert(name_lt(xs[i].name, xs[xs.len() - 1].name));
                assert(names(xs, n));
                let j = choose|j: int| 0 <= j < ys.len() && (#[trigger] ys[j]).name == n;
                if j == ys.len() - 1 {
                    lemma_name_lt_irreflexive(n);
                }
                assert(ys1[j].name == n);
            }
            if names(ys1, n) {
                let j = choose|j: int| 0 <= j < ys1.len() && (#[trigger] ys1[j]).name == n;
                assert(ys[j].name == n);
                assert(name_lt(ys[j].name, ys[ys.len() - 1].name));
                assert(names(ys, n));
                let i = choose|i: int| 0 <= i < xs.len() && (#[trigger] xs[i]).name == n;
                if i == xs.len() - 1 {
                    lemma_name_lt_irreflexive(n);
                }
                assert(xs1[i].name == n);
            }
        }
        assert(sorted_by_name(xs1)) by {
            assert forall|i: int, j: int| 0 <= i < j < xs1.len() implies name_lt(
                #[trigger] xs1[i].name,
                #[trigger] xs1[j].name,
            ) by {
                assert(name_lt(xs[i].name, xs[j].name));
            }
        }
        assert(sorted_by_name(ys1)) by {
            assert forall|i: int, j: int| 0 <= i < j < ys1.len() implies name_lt(
                #[trigger] ys1[i].name,
                #[trigger] ys1[j].name,
            ) by {
                assert(name_lt(ys[i].name, ys[j].name));
            }
        }
        lemma_same_names(xs1, ys1);
        assert forall|i: int| 0 <= i < xs.len() implies (#[trigger] xs[i]).name == ys[i].name by {
            if i < xs.len() - 1 {
                assert(xs1[i].name == ys1[i].name);
            }
        }
    }
}

/// What a child holds is what its parent holds under the child's name.
pub proof fn lemma_child_paths(t: TreeModel, i: int, p: Seq<Seq<char>>)
    requires
        t.wf(),
        0 <= i < t.dirs.len(),
    ensures
        p.len() >= 1 ==> t.dirs[i].file_count(p) == t.file_count(seq![t.dirs[i].name] + p),
        t.dirs[i].has_dir_path(p) == t.has_dir_path(seq![t.dirs[i].name] + p),
{
    lemma_dir_unique(t, i);
    let full = seq![t.dirs[i].name] + p;
    assert(full.drop_first() =~= p);
    assert(full[0] == t.dirs[i].name);
}

/// Well-formed trees of the same name that hold the same file paths, each as
/// often, and the same directory paths have the same content.
pub proof fn lemma_same_paths_same_content(a: TreeModel, b: TreeModel)
    requires
        a.wf(),
        b.wf(),
        a.name == b.name,
        forall|p: Seq<Seq<char>>| a.file_count(p) == b.file_count(p),
        forall|d: Seq<Seq<char>>| a.has_dir_path(d) == b.has_dir_path(d),
    ensures
        same_content(a, b),
    decreases a,
{
    assert(a.files.to_multiset() =~= b.files.to_multiset()) by {
        assert forall|x: Seq<char>|
            a.files.to_multiset().count(x) == b.files.to_multiset().count(x) by {
            assert(a.file_count(seq![x]) == b.file_count(seq![x]));
        }
    }
    assert forall|n: Seq<char>| names(a.dirs, n) == names(b.dirs, n) by {
        assert(a.has_dir_path(seq![n]) == b.has_dir_path(seq![n]));
        let rest = seq![n].drop_first();
        assert(rest.len() == 0);
        assert(seq![n][0] == n);
        assert(a.dir(n).has_dir_path(rest));
        assert(b.dir(n).has_dir_path(rest));
        assert(a.has_dir_path(seq![n]) == a.has_dir(n));
        assert(b.has_dir_path(seq![n]) == b.has_dir(n));
    }
    lemma_same_names(a.dirs, b.dirs);
    assert forall|i: int| 0 <= i < a.dirs.len() implies same_content(
        #[trigger] a.dirs[i],
        b.dirs[i],
    ) by {
        let x = a.dirs[i].name;
        assert forall|p: Seq<Seq<char>>| a.dirs[i].file_count(p) == b.dirs[i].file_count(p) by {
            lemma_child_paths(a, i, p);
            lemma_child_paths(b, i, p);
            if p.len() == 0 {
            } else {
                assert(a.file_count(seq![x] + p) == b.file_count(seq![x] + p));
            }
        }
        assert forall|d: Seq<Seq<char>>|
            a.dirs[i].has_dir_path(d) == b.dirs[i].has_dir_path(d) by {
            lemma_child_paths(a, i, d);
            lemma_child_paths(b, i, d);
            assert(a.has_dir_path(seq![x] + d) == b.has_dir_path(seq![x] + d));
        }
        lemma_same_paths_same_content(a.dirs[i], b.dirs[i]);
    }
}

/// The builder does not depend on the order of its input: trees of the same
/// name built under the same depth limit from two lists that hold the same
/// paths, each as often, have the same content.
pub proof fn lemma_build_order_independent(
    a: TreeModel,
    b: TreeModel,
    qs1: Seq<Seq<Seq<char>>>,
    qs2: Seq<Seq<Seq<char>>>,
    limit: Option<nat>,
)
    requires
        is_tree_of(a, qs1, limit),
        is_tree_of(b, qs2, limit),
        a.name == b.name,
        qs1.to_multiset() == qs2.to_multiset(),
    ensures
        same_content(a, b),
{
    broadcast use vstd::seq_lib::group_to_multiset_ensures;
    assert forall|p: Seq<Seq<char>>| a.file_count(p) == b.file_count(p) by {
        assert(a.file_count(p) == due_files(qs1, limit, p));
        assert(b.file_count(p) == due_files(qs2, limit, p));
    }
    assert forall|d: Seq<Seq<char>>| a.has_dir_path(d) == b.has_dir_path(d) by {
        assert(a.has_dir_path(d) == due_dir(qs1, limit, d));
        assert(b.has_dir_path(d) == due_dir(qs2, limit, d));
        if d.len() > 0 && due_dir(qs1, limit, d) {
            let i = choose|i: int| 0 <= i < qs1.len() && opens_dir(#[trigger] qs1[i], limit, d);
            assert(qs1.contains(qs1[i]));
            assert(qs2.to_multiset().count(qs1[i]) > 0);
            assert(qs2.contains(qs1[i]));
            let j = choose|j: int| 0 <= j < qs2.len() && qs2[j] == qs1[i];
            assert(opens_dir(qs2[j], limit, d));
        }
        if d.len() > 0 && due_dir(qs2, limit, d) {
            let i = choose|i: int| 0 <= i < qs2.len() && opens_dir(#[trigger] qs2[i], limit, d);
            assert(qs2.contains(qs2[i]));
            assert(qs1.to_multiset().count(qs2[i]) > 0);
            assert(qs1.contains(qs2[i]));
            let j = choose|j: int| 0 <= j < qs1.len() && qs1[j] == qs2[i];
            assert(opens_dir(qs1[j], limit, d));
        }
    }
    lemma_same_paths_same_content(a, b);
}

/// Where no component of any path is empty, no directory of the tree has
/// an empty name: every directory path of the tree ends in a non-empty name.
pub proof fn lemma_directory_names_not_empty(
    t: TreeModel,
    qs: Seq<Seq<Seq<char>>>,
    limit: Option<nat>,
    d: Seq<Seq<char>>,
)
    requires
        is_tree_of(t, qs, limit),
        forall|i: int, j: int|
            0 <= i < qs.len() && 0 <= j < qs[i].len() ==> (#[trigger] qs[i][j]).len() > 0,
        d.len() >= 1,
        t.has_dir_path(d),
    ensures
        d.last().len() > 0,
{
    assert(due_dir(qs, limit, d));
    let i = choose|i: int| 0 <= i < qs.len() && opens_dir(#[trigger] qs[i], limit, d);
    assert(d.last() == qs[i].take(d.len() as int)[d.len() - 1]);
    assert(d.last() == qs[i][d.len() - 1]);
}

} // verus!
