//! From the discovered paths to the list that becomes the tree: the
//! relevant ones, in the order of paths, cut to a maximum number.

use vstd::prelude::*;
use vstd::relations::sorted_by;
use vstd::seq_lib::lemma_sorted_unique;
use crate::filter::{is_relevant, is_relevant_path, FilterOptions};
use crate::order::Order;
use crate::path::{path_views, FilePath};
use crate::path_order::{
    compare_paths, lemma_path_order_total, lemma_path_total, path_lt, path_order,
};
use crate::tree::limit_of;

verus! {

/// The relevant ones among the given paths, in their order.
pub open spec fn relevant_paths(paths: Seq<Seq<Seq<char>>>, opts: FilterOptions) -> Seq<
    Seq<Seq<char>>,
> {
    paths.filter(|p: Seq<Seq<char>>| is_relevant(p, opts))
}

/// A list cut to at most `max` items, where a maximum is set.
pub open spec fn capped(s: Seq<Seq<Seq<char>>>, max: Option<nat>) -> Seq<Seq<Seq<char>>> {
    match max {
        Some(m) => if s.len() > m {
            s.take(m as int)
        } else {
            s
        },
        None => s,
    }
}

/// The list that becomes the tree: the relevant paths, sorted, and cut to
/// the maximum number of files.
pub open spec fn selected(paths: Seq<Seq<Seq<char>>>, opts: FilterOptions, max: Option<nat>) -> Seq<
    Seq<Seq<char>>,
> {
    capped(relevant_paths(paths, opts).sort_by(path_order()), max)
}

/// The place in a sorted list before which `x` belongs, and whether `x`
/// stands there already.
pub fn find_place(sorted: &Vec<FilePath>, x: &FilePath) -> (r: (usize, bool))
    ensures
        r.0 <= sorted.len(),
        forall|j: int| 0 <= j < r.0 ==> path_lt(#[trigger] path_views(sorted@)[j], x@),
        r.1 ==> r.0 < sorted.len() && path_views(sorted@)[r.0 as int] == x@,
        !r.1 ==> r.0 == sorted.len() || path_lt(x@, path_views(sorted@)[r.0 as int]),
{
    let mut pos: usize = 0;
    while pos < sorted.len()
        invariant
            pos <= sorted.len(),
            forall|j: int| 0 <= j < pos ==> path_lt(#[trigger] path_views(sorted@)[j], x@),
        decreases sorted.len() - pos,
    {
        match compare_paths(&sorted[pos], x) {
            Order::Less => {},
            Order::Equal => {
                return (pos, true);
            },
            Order::Greater => {
                proof {
                    lemma_path_total(sorted[pos as int]@, x@);
                }
                return (pos, false);
            },
        }
        pos = pos + 1;
    }
    (pos, false)
}

/// Inserts a path into a sorted list at its place.
pub fn insert_sorted(sorted: &mut Vec<FilePath>, x: FilePath)
    requires
        sorted_by(path_views(old(sorted)@), path_order()),
    ensures
        sorted_by(path_views(final(sorted)@), path_order()),
        path_views(final(sorted)@).to_multiset() == path_views(old(sorted)@).to_multiset().insert(
            x@,
        ),
{
    let ghost before = path_views(sorted@);
    let (pos, _) = find_place(sorted, &x);
    sorted.insert(pos, x);
    proof {
        let after = path_views(sorted@);
        let r = path_order();
        lemma_path_order_total();
        assert(after =~= before.insert(pos as int, x@));
        broadcast use vstd::seq_lib::group_to_multiset_ensures;
        assert forall|a: int, b: int| 0 <= a < b < after.len() implies r(after[a], after[b]) by {
            if b < pos {
                assert(r(before[a], before[b]));
            } else if b == pos {
                assert(path_lt(before[a], x@));
            } else if a > pos {
                assert(r(before[a - 1], before[b - 1]));
            } else if a == pos {
                assert(r(x@, before[pos as int]));
                if b - 1 > pos {
                    assert(r(before[pos as int], before[b - 1]));
                    assert(r(x@, before[pos as int]) && r(before[pos as int], before[b - 1]));
                }
            } else {
                assert(r(before[a], before[b - 1]));
            }
        }
    }
}

/// Selects the files of the listing: keeps the relevant paths, sorts them,
/// and cuts the list to `max_files` where a maximum is set.
pub fn select_files(files: Vec<FilePath>, opts: &FilterOptions, max_files: Option<usize>) -> (r:
    Vec<FilePath>)
    ensures
        path_views(r@) == selected(path_views(files@), *opts, limit_of(max_files)),
{
    let ghost all = path_views(files@);
    let ghost pred = |p: Seq<Seq<char>>| is_relevant(p, *opts);
    let mut rest = files;
    let mut out: Vec<FilePath> = Vec::new();
    proof {
        broadcast use vstd::multiset::group_multiset_axioms;
        assert(path_views(out@) =~= Seq::empty());
        assert(path_views(out@).to_multiset() =~= vstd::multiset::Multiset::empty()) by {
            vstd::seq_lib::to_multiset_len(path_views(out@));
        }
        assert(all.filter(pred).to_multiset() =~= path_views(rest@).filter(pred).to_multiset().add(
            path_views(out@).to_multiset(),
        ));
    }
    while rest.len() > 0
        invariant
            pred == |p: Seq<Seq<char>>| is_relevant(p, *opts),
            sorted_by(path_views(out@), path_order()),
            all.filter(pred).to_multiset() == path_views(rest@).filter(pred).to_multiset().add(
                path_views(out@).to_multiset(),
            ),
        decreases rest.len(),
    {
        let ghost held = path_views(rest@);
        let ghost sorted = path_views(out@);
        let x = rest.pop().unwrap();
        proof {
            reveal(Seq::filter);
            assert(path_views(rest@) =~= held.drop_last());
            assert(held.last() == x@);
        }
        if is_relevant_path(&x, opts) {
            insert_sorted(&mut out, x);
            proof {
                broadcast use vstd::seq_lib::group_to_multiset_ensures;
                broadcast use vstd::multiset::group_multiset_axioms;
                assert(held.filter(pred) == held.drop_last().filter(pred).push(held.last()));
                assert(all.filter(pred).to_multiset() =~= path_views(rest@).filter(
                    pred,
                ).to_multiset().add(path_views(out@).to_multiset()));
            }
        } else {
            assert(held.filter(pred) == held.drop_last().filter(pred));
        }
    }
    proof {
        reveal(Seq::filter);
        broadcast use vstd::multiset::group_multiset_axioms;
        assert(path_views(rest@).filter(pred) =~= Seq::empty());
        assert(path_views(rest@).filter(pred).to_multiset() =~= vstd::multiset::Multiset::empty())
            by {
            vstd::seq_lib::to_multiset_len(path_views(rest@).filter(pred));
        }
        assert(path_views(out@).to_multiset() =~= all.filter(pred).to_multiset());
        lemma_path_order_total();
        all.filter(pred).lemma_sort_by_ensures(path_order());
        lemma_sorted_unique(path_views(out@), all.filter(pred).sort_by(path_order()), path_order());
    }
    if let Some(m) = max_files {
        let ghost whole = path_views(out@);
        if out.len() > m {
            out.truncate(m);
            assert(path_views(out@) =~= whole.take(m as int));
        }
    }
    out
}

} // verus!
