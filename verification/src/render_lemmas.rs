//! What holds of every rendering: it depends on the content of the tree
//! alone, it shows nothing beyond the depth limit, and it shows each file of
//! the tree as often as the tree holds it.

use vstd::prelude::*;
use vstd::seq_lib::lemma_multiset_commutative;
use crate::order::name_lt;
use crate::render::{
    descends, dir_entry, entries, entries_below, entries_in_child, entries_of_dirs, file_entries,
    file_entry, settled, tree_text, Entry,
};
use crate::sorting::{file_order, lemma_file_order_total, lemma_sorted_files_unique, sorted_files};
use crate::tree::{due_files, is_tree_of, lemma_dir_unique, within, TreeModel};
use crate::tree_lemmas::{lemma_build_order_independent, lemma_child_paths, same_content};

verus! {

/// The same files, in whatever order, are listed in the same order.
pub proof fn lemma_sorted_files_of_same_files(x: Seq<Seq<char>>, y: Seq<Seq<char>>)
    requires
        x.to_multiset() == y.to_multiset(),
    ensures
        sorted_files(x) == sorted_files(y),
{
    lemma_file_order_total();
    x.lemma_sort_by_ensures(file_order());
    lemma_sorted_files_unique(sorted_files(x), y);
}

proof fn lemma_same_content_dirs(
    a: TreeModel,
    b: TreeModel,
    k: nat,
    at: Seq<Seq<char>>,
    limit: Option<nat>,
)
    requires
        same_content(a, b),
        k <= a.dirs.len(),
    ensures
        entries_of_dirs(a, k, at, limit) == entries_of_dirs(b, k, at, limit),
    decreases a, k,
{
    if k > 0 {
        lemma_same_content_dirs(a, b, (k - 1) as nat, at, limit);
        let ca = a.dirs[k - 1];
        let cb = b.dirs[k - 1];
        assert(same_content(ca, cb));
        if descends(at.len(), limit) {
            lemma_same_content_same_entries(ca, cb, at.push(ca.name), limit);
        }
        assert(entries_in_child(ca, at, limit) == entries_in_child(cb, at, limit));
    }
}

/// Trees of the same content are rendered to the same lines.
pub proof fn lemma_same_content_same_entries(
    a: TreeModel,
    b: TreeModel,
    at: Seq<Seq<char>>,
    limit: Option<nat>,
)
    requires
        same_content(a, b),
    ensures
        entries_below(a, at, limit) == entries_below(b, at, limit),
    decreases a, a.dirs.len() + 1,
{
    lemma_same_content_dirs(a, b, a.dirs.len(), at, limit);
    lemma_sorted_files_of_same_files(a.files, b.files);
}

/// Rendering depends on the content of the tree alone: trees with the same
/// directories and, in whatever order, the same files give the same text.
pub proof fn lemma_same_content_same_text(
    a: TreeModel,
    b: TreeModel,
    indent: nat,
    limit: Option<nat>,
)
    requires
        same_content(a, b),
    ensures
        tree_text(a, indent, limit) == tree_text(b, indent, limit),
{
    lemma_same_content_same_entries(a, b, Seq::empty(), limit);
}

/// The rendered text does not depend on the order of the input: trees of the
/// same name built under the same depth limit from two lists that hold the
/// same paths, each as often, give the same text.
pub proof fn lemma_text_order_independent(
    a: TreeModel,
    b: TreeModel,
    qs1: Seq<Seq<Seq<char>>>,
    qs2: Seq<Seq<Seq<char>>>,
    limit: Option<nat>,
    indent: nat,
)
    requires
        is_tree_of(a, qs1, limit),
        is_tree_of(b, qs2, limit),
        a.name == b.name,
        qs1.to_multiset() == qs2.to_multiset(),
    ensures
        tree_text(a, indent, limit) == tree_text(b, indent, limit),
{
    lemma_build_order_independent(a, b, qs1, qs2, limit);
    lemma_same_content_same_text(a, b, indent, limit);
}

/// Rendering changes no content: the tree it leaves has the directories and,
/// in another order, the files of the tree it was given, and is well formed
/// where that one was.
pub proof fn lemma_settled_same_content(t: TreeModel, level: nat, limit: Option<nat>)
    ensures
        same_content(t, settled(t, level, limit)),
        t.wf() ==> settled(t, level, limit).wf(),
    decreases t,
{
    let s = settled(t, level, limit);
    lemma_file_order_total();
    t.files.lemma_sort_by_ensures(file_order());
    assert forall|i: int| 0 <= i < t.dirs.len() implies same_content(#[trigger] t.dirs[i], s.dirs[i])
        && s.dirs[i].name == t.dirs[i].name && (t.dirs[i].wf() ==> s.dirs[i].wf()) by {
        if descends(level, limit) {
            lemma_settled_same_content(t.dirs[i], level + 1, limit);
        } else {
            lemma_same_content_reflexive(t.dirs[i]);
        }
    }
    if t.wf() {
        assert forall|i: int, j: int| 0 <= i < j < s.dirs.len() implies name_lt(
            #[trigger] s.dirs[i].name,
            #[trigger] s.dirs[j].name,
        ) by {
            assert(name_lt(t.dirs[i].name, t.dirs[j].name));
        }
        assert forall|i: int| 0 <= i < s.dirs.len() implies (#[trigger] s.dirs[i]).wf() by {
            assert(t.dirs[i].wf());
        }
    }
}

/// Every tree has the same content as itself.
pub proof fn lemma_same_content_reflexive(t: TreeModel)
    ensures
        same_content(t, t),
    decreases t,
{
    assert forall|i: int| 0 <= i < t.dirs.len() implies same_content(#[trigger] t.dirs[i], t.dirs[i]) by {
        lemma_same_content_reflexive(t.dirs[i]);
    }
}

/// Whether the line `e` may stand below the directory at path `at` under a
/// depth limit: it lies under `at`, and no deeper than the limit, or, where
/// the limit is less, than directly below `at`.
pub open spec fn fits_below(e: Entry, at: Seq<Seq<char>>, limit: Option<nat>) -> bool {
    &&& e.path.len() > at.len()
    &&& e.path.take(at.len() as int) == at
    &&& limit matches Some(m) ==> e.path.len() <= m || e.path.len() == at.len() + 1
}

proof fn lemma_dirs_fit(t: TreeModel, k: nat, at: Seq<Seq<char>>, limit: Option<nat>, i: int)
    requires
        k <= t.dirs.len(),
        0 <= i < entries_of_dirs(t, k, at, limit).len(),
    ensures
        fits_below(entries_of_dirs(t, k, at, limit)[i], at, limit),
        exists|j: int|
            0 <= j < k && entries_of_dirs(t, k, at, limit)[i].path[at.len() as int]
                == (#[trigger] t.dirs[j]).name,
    decreases t, k,
{
    let child = t.dirs[k - 1];
    let before = entries_of_dirs(t, (k - 1) as nat, at, limit);
    let here = at.push(child.name);
    let inner = entries_in_child(child, at, limit);
    let e = entries_of_dirs(t, k, at, limit)[i];
    if i < before.len() {
        lemma_dirs_fit(t, (k - 1) as nat, at, limit, i);
        let j = choose|j: int|
            0 <= j < k - 1 && before[i].path[at.len() as int] == (#[trigger] t.dirs[j]).name;
        assert(t.dirs[j].name == e.path[at.len() as int]);
    } else if i == before.len() {
        assert(e == dir_entry(here));
        assert(here.take(at.len() as int) =~= at);
        assert(t.dirs[k - 1].name == e.path[at.len() as int]);
    } else {
        let r = i - before.len() - 1;
        assert(e == inner[r]);
        lemma_entries_fit(child, here, limit, r);
        assert(e.path.take(at.len() as int) =~= e.path.take(here.len() as int).take(
            at.len() as int,
        ));
        assert(here.take(at.len() as int) =~= at);
        assert(e.path[at.len() as int] == e.path.take(here.len() as int)[at.len() as int]);
        assert(t.dirs[k - 1].name == e.path[at.len() as int]);
    }
}

/// Every line below a directory lies under that directory's path, and no
/// deeper than the depth limit, or than directly below the directory where
/// the limit is less.
pub proof fn lemma_entries_fit(t: TreeModel, at: Seq<Seq<char>>, limit: Option<nat>, i: int)
    requires
        0 <= i < entries_below(t, at, limit).len(),
    ensures
        fits_below(entries_below(t, at, limit)[i], at, limit),
    decreases t, t.dirs.len() + 1,
{
    let ds = entries_of_dirs(t, t.dirs.len(), at, limit);
    if i < ds.len() {
        lemma_dirs_fit(t, t.dirs.len(), at, limit, i);
    } else {
        let e = entries_below(t, at, limit)[i];
        let f = sorted_files(t.files)[i - ds.len()];
        assert(e == file_entry(at.push(f)));
        assert(at.push(f).take(at.len() as int) =~= at);
    }
}

/// A tree built under the depth limit 0 holds nothing.
pub proof fn lemma_nothing_under_zero(t: TreeModel, qs: Seq<Seq<Seq<char>>>)
    requires
        is_tree_of(t, qs, Some(0nat)),
    ensures
        t.dirs.len() == 0,
        t.files.len() == 0,
{
    if t.dirs.len() > 0 {
        let n = t.dirs[0].name;
        lemma_dir_unique(t, 0);
        let rest = seq![n].drop_first();
        assert(rest.len() == 0);
        assert(seq![n][0] == n);
        assert(t.dir(n).has_dir_path(rest));
        assert(t.has_dir_path(seq![n]));
    }
    if t.files.len() > 0 {
        broadcast use vstd::seq_lib::group_to_multiset_ensures;
        let f = t.files[0];
        assert(t.files.contains(f));
        assert(seq![f][0] == f);
        assert(t.file_count(seq![f]) > 0);
    }
}

/// Nothing beyond the depth limit is shown: in the rendering of a tree built
/// under a depth limit, with the same limit, no line lies deeper than the
/// limit.
pub proof fn lemma_nothing_shown_beyond_limit(
    t: TreeModel,
    qs: Seq<Seq<Seq<char>>>,
    limit: Option<nat>,
    i: int,
)
    requires
        is_tree_of(t, qs, limit),
        0 <= i < entries(t, limit).len(),
    ensures
        within(limit, entries(t, limit)[i].path.len()),
{
    lemma_entries_fit(t, Seq::empty(), limit, i);
    if limit == Some(0nat) {
        lemma_nothing_under_zero(t, qs);
        assert(entries_of_dirs(t, 0, Seq::empty(), limit).len() == 0);
        lemma_file_order_total();
        t.files.lemma_sort_by_ensures(file_order());
        vstd::seq_lib::to_multiset_len(sorted_files(t.files));
        vstd::seq_lib::to_multiset_len(t.files);
        assert(sorted_files(t.files).len() == 0);
    }
}

/// How often the rendering of `t`, which stands at depth `level`, shows the
/// file at path `p` below `t`: as often as the tree holds it, unless the
/// depth limit hides a directory on the way.
pub open spec fn shown_count(t: TreeModel, level: nat, limit: Option<nat>, p: Seq<Seq<char>>) -> nat
    decreases p.len(),
{
    if p.len() == 0 {
        0
    } else if p.len() == 1 {
        t.files.to_multiset().count(p[0])
    } else if t.has_dir(p[0]) && descends(level, limit) {
        shown_count(t.dir(p[0]), level + 1, limit, p.drop_first())
    } else {
        0
    }
}

/// How often the lines of the files of one directory show the file at path
/// `q`.
proof fn lemma_file_entries_count(at: Seq<Seq<char>>, files: Seq<Seq<char>>, q: Seq<Seq<char>>)
    ensures
        file_entries(at, files).to_multiset().count(file_entry(q)) == if q.len() == at.len() + 1
            && q.take(at.len() as int) == at {
            files.to_multiset().count(q.last())
        } else {
            0
        },
    decreases files.len(),
{
    broadcast use vstd::seq_lib::group_to_multiset_ensures;
    if files.len() == 0 {
        assert(file_entries(at, files).len() == 0);
        assert(!file_entries(at, files).contains(file_entry(q)));
        assert(!files.contains(q.last()));
    } else {
        let rest = files.drop_last();
        let f = files.last();
        lemma_file_entries_count(at, rest, q);
        assert(files =~= rest.push(f));
        assert(file_entries(at, files) =~= file_entries(at, rest).push(file_entry(at.push(f))));
        if at.push(f) == q {
            assert(q.take(at.len() as int) =~= at);
        }
        if q.len() == at.len() + 1 && q.take(at.len() as int) == at && q.last() == f {
            assert(at.push(f) =~= q);
        }
    }
}

/// A line that does not fit below a directory is not among its lines.
proof fn lemma_misfit_not_shown(t: TreeModel, at: Seq<Seq<char>>, limit: Option<nat>, e: Entry)
    requires
        !(e.path.len() > at.len() && e.path.take(at.len() as int) == at),
    ensures
        entries_below(t, at, limit).to_multiset().count(e) == 0,
{
    broadcast use vstd::seq_lib::group_to_multiset_ensures;
    let es = entries_below(t, at, limit);
    if es.contains(e) {
        let i = choose|i: int| 0 <= i < es.len() && es[i] == e;
        lemma_entries_fit(t, at, limit, i);
    }
}

proof fn lemma_dir_lines_count(
    t: TreeModel,
    k: nat,
    at: Seq<Seq<char>>,
    limit: Option<nat>,
    p: Seq<Seq<char>>,
)
    requires
        t.wf(),
        k <= t.dirs.len(),
        p.len() >= 1,
    ensures
        entries_of_dirs(t, k, at, limit).to_multiset().count(file_entry(at + p)) == if p.len() >= 2
            && descends(at.len(), limit) && exists|j: int|
            0 <= j < k && (#[trigger] t.dirs[j]).name == p[0] {
            shown_count(t.dir(p[0]), at.len() + 1, limit, p.drop_first())
        } else {
            0
        },
    decreases t, k,
{
    broadcast use vstd::seq_lib::group_to_multiset_ensures;
    let e = file_entry(at + p);
    if k == 0 {
        assert(entries_of_dirs(t, k, at, limit).len() == 0);
        assert(!entries_of_dirs(t, k, at, limit).contains(e));
    } else {
        let child = t.dirs[k - 1];
        let before = entries_of_dirs(t, (k - 1) as nat, at, limit);
        let here = at.push(child.name);
        let own = seq![dir_entry(here)];
        let inner = entries_in_child(child, at, limit);
        lemma_dir_lines_count(t, (k - 1) as nat, at, limit, p);
        lemma_multiset_commutative(before + own, inner);
        lemma_multiset_commutative(before, own);
        assert(own.to_multiset().count(e) == 0) by {
            if own.contains(e) {
                let i = choose|i: int| 0 <= i < own.len() && own[i] == e;
            }
        }
        assert(child.wf());
        lemma_dir_unique(t, k - 1);
        let mine = p.len() >= 2 && p[0] == child.name;
        if descends(at.len(), limit) {
            if mine {
                assert(at + p =~= here + p.drop_first());
                lemma_file_lines(child, here, limit, p.drop_first());
                // no earlier child bears the same name
                assert forall|j: int| 0 <= j < k - 1 implies (#[trigger] t.dirs[j]).name != p[0] by {
                    lemma_dir_unique(t, j);
                }
            } else {
                if (at + p).len() > here.len() && (at + p).take(here.len() as int) == here {
                    assert((at + p)[at.len() as int] == here[at.len() as int]);
                    assert(false);
                }
                lemma_misfit_not_shown(child, here, limit, e);
            }
        } else {
            assert(inner.len() == 0);
            assert(!inner.contains(e));
        }
    }
}

/// How often the lines below a directory show a file is how often the
/// rendering is said to show it.
pub proof fn lemma_file_lines(t: TreeModel, at: Seq<Seq<char>>, limit: Option<nat>, p: Seq<Seq<char>>)
    requires
        t.wf(),
        p.len() >= 1,
    ensures
        entries_below(t, at, limit).to_multiset().count(file_entry(at + p)) == shown_count(
            t,
            at.len(),
            limit,
            p,
        ),
    decreases t, t.dirs.len() + 1,
{
    let ds = entries_of_dirs(t, t.dirs.len(), at, limit);
    let fs = file_entries(at, sorted_files(t.files));
    lemma_multiset_commutative(ds, fs);
    lemma_dir_lines_count(t, t.dirs.len(), at, limit, p);
    lemma_file_entries_count(at, sorted_files(t.files), at + p);
    lemma_file_order_total();
    t.files.lemma_sort_by_ensures(file_order());
    if p.len() == 1 {
        assert((at + p).take(at.len() as int) =~= at);
        assert((at + p).last() == p[0]);
    }
}

/// Whether the tree `t`, which stands at depth `level`, holds no file
/// deeper than the depth limit.
pub open spec fn holds_within(t: TreeModel, level: nat, limit: Option<nat>) -> bool {
    forall|p: Seq<Seq<char>>| !within(limit, level + p.len()) ==> #[trigger] t.file_count(p) == 0
}

/// Of a tree that holds no file deeper than the depth limit, the rendering
/// under that limit shows every file as often as the tree holds it.
pub proof fn lemma_shown_as_held(t: TreeModel, level: nat, limit: Option<nat>, p: Seq<Seq<char>>)
    requires
        t.wf(),
        holds_within(t, level, limit),
    ensures
        shown_count(t, level, limit, p) == t.file_count(p),
    decreases p.len(),
{
    if p.len() >= 2 && t.has_dir(p[0]) {
        let i = t.dir_index(p[0]);
        let c = t.dirs[i];
        if descends(level, limit) {
            assert(c.wf());
            assert forall|r: Seq<Seq<char>>| !within(limit, level + 1 + r.len()) implies #[trigger]
                c.file_count(r) == 0 by {
                lemma_child_paths(t, i, r);
                if r.len() >= 1 {
                    assert(t.file_count(seq![c.name] + r) == 0);
                }
            }
            lemma_shown_as_held(c, level + 1, limit, p.drop_first());
        } else {
            assert(!within(limit, level + p.len()));
        }
    }
}

/// Every file of the input is shown as often as the input holds it, or not
/// at all where it lies deeper than the depth limit: in the rendering of a
/// tree built from the relative paths `qs`, the file at path `p` has as many
/// lines as it is due in the tree.
pub proof fn lemma_files_shown_as_due(
    t: TreeModel,
    qs: Seq<Seq<Seq<char>>>,
    limit: Option<nat>,
    p: Seq<Seq<char>>,
)
    requires
        is_tree_of(t, qs, limit),
        p.len() >= 1,
    ensures
        entries(t, limit).to_multiset().count(file_entry(p)) == due_files(qs, limit, p),
{
    let at = Seq::<Seq<char>>::empty();
    assert(at + p =~= p);
    lemma_file_lines(t, at, limit, p);
    assert(holds_within(t, 0, limit)) by {
        assert forall|r: Seq<Seq<char>>| !within(limit, 0 + r.len()) implies #[trigger]
            t.file_count(r) == 0 by {
            assert(t.file_count(r) == due_files(qs, limit, r));
        }
    }
    lemma_shown_as_held(t, 0, limit, p);
}

} // verus!
