//! Assembling the candidate paths from what a version-control query
//! reported.

use vstd::prelude::*;
use vstd::string::*;
use crate::path::{path_views, FilePath};
use crate::path_order::{lemma_path_lt_transitive, path_lt};
use crate::secret::{is_secret, is_secret_path};
use crate::selection::find_place;
use crate::sorting::names_of;
use crate::text::{blank, is_blank, split_lines, text_lines};

verus! {

/// The paths that a listing query reported, one per line: the lines of its
/// output that are not blank.
pub open spec fn listed_lines(stdout: Seq<char>) -> Seq<Seq<char>> {
    text_lines(stdout).filter(|l: Seq<char>| !is_blank(l))
}

/// Whether an ignored path is taken into the candidates: always where
/// ignored paths are wanted, else only a secret-like one where the names of
/// secrets are to be shown.
pub open spec fn takes_ignored(
    p: Seq<Seq<char>>,
    include_ignored: bool,
    include_secret_names: bool,
) -> bool {
    include_ignored || (include_secret_names && is_secret(p))
}

/// The paths stand in strictly increasing order, so none occurs twice.
pub open spec fn strictly_sorted(s: Seq<Seq<Seq<char>>>) -> bool {
    forall|i: int, j: int| 0 <= i < j < s.len() ==> path_lt(#[trigger] s[i], #[trigger] s[j])
}

/// What a listing query reported: nothing where the query failed, which
/// leaves version control unavailable, else the lines of its output that are
/// not blank.
pub fn listing_lines(success: bool, stdout: &str) -> (r: Option<Vec<String>>)
    ensures
        r is Some <==> success,
        r is Some ==> names_of(r->0@) == listed_lines(stdout@),
{
    if !success {
        return None;
    }
    let mut r: Vec<String> = Vec::new();
    let lines = split_lines(stdout);
    let ghost all = text_lines(stdout@);
    let ghost pred = |l: Seq<char>| !is_blank(l);
    let mut i: usize = 0;
    proof {
        reveal(Seq::filter);
        assert(all.take(0).filter(pred) =~= Seq::empty());
        assert(names_of(r@) =~= Seq::empty());
    }
    while i < lines.len()
        invariant
            i <= lines.len(),
            all == names_of(lines@),
            pred == |l: Seq<char>| !is_blank(l),
            names_of(r@) == all.take(i as int).filter(pred),
        decreases lines.len() - i,
    {
        let ghost kept = names_of(r@);
        proof {
            reveal(Seq::filter);
            assert(all.take(i + 1).drop_last() =~= all.take(i as int));
            assert(all.take(i + 1).last() == lines[i as int]@);
        }
        if !blank(lines[i].as_str()) {
            r.push(lines[i].clone());
            assert(names_of(r@) =~= kept.push(lines[i as int]@));
        }
        i = i + 1;
    }
    assert(all.take(i as int) =~= all);
    Some(r)
}

/// Inserts a path into a strictly sorted list, unless it stands there
/// already.
pub fn insert_unique(sorted: &mut Vec<FilePath>, x: FilePath)
    requires
        strictly_sorted(path_views(old(sorted)@)),
    ensures
        strictly_sorted(path_views(final(sorted)@)),
        forall|p: Seq<Seq<char>>|
            path_views(final(sorted)@).contains(p) <==> path_views(old(sorted)@).contains(p) || p
                == x@,
{
    let ghost before = path_views(sorted@);
    let (pos, found) = find_place(sorted, &x);
    if found {
        assert(before.contains(x@));
        return;
    }
    sorted.insert(pos, x);
    proof {
        let after = path_views(sorted@);
        assert(after =~= before.insert(pos as int, x@));
        assert forall|j: int| pos <= j < before.len() implies path_lt(x@, #[trigger] before[j]) by {
            if j > pos {
                assert(path_lt(before[pos as int], before[j]));
                lemma_path_lt_transitive(x@, before[pos as int], before[j]);
            }
        }
        assert forall|a: int, b: int| 0 <= a < b < after.len() implies path_lt(
            #[trigger] after[a],
            #[trigger] after[b],
        ) by {
            if b < pos {
                assert(path_lt(before[a], before[b]));
            } else if b == pos {
                assert(path_lt(before[a], x@));
            } else if a > pos {
                assert(path_lt(before[a - 1], before[b - 1]));
            } else if a == pos {
                assert(path_lt(x@, before[b - 1]));
            } else {
                assert(path_lt(before[a], x@));
                assert(path_lt(x@, before[b - 1]));
                lemma_path_lt_transitive(before[a], x@, before[b - 1]);
            }
        }
        assert forall|p: Seq<Seq<char>>| after.contains(p) <==> before.contains(p) || p == x@ by {
            if after.contains(p) {
                let k = choose|k: int| 0 <= k < after.len() && after[k] == p;
                if k < pos {
                    assert(before[k] == p);
                } else if k > pos {
                    assert(before[k - 1] == p);
                }
            }
            if before.contains(p) {
                let k = choose|k: int| 0 <= k < before.len() && before[k] == p;
                assert(after[if k < pos { k } else { k + 1 }] == p);
            }
            if p == x@ {
                assert(after[pos as int] == p);
            }
        }
    }
}

/// The candidate paths of a version-control listing: the paths of the index
/// and the new ones, and of the ignored ones those that are taken, without
/// duplicates and in the order of paths.
pub fn merge_listings(
    indexed: Vec<FilePath>,
    ignored: Vec<FilePath>,
    include_ignored: bool,
    include_secret_names: bool,
) -> (r: Vec<FilePath>)
    ensures
        strictly_sorted(path_views(r@)),
        forall|p: Seq<Seq<char>>|
            path_views(r@).contains(p) <==> path_views(indexed@).contains(p) || (path_views(
                ignored@,
            ).contains(p) && takes_ignored(p, include_ignored, include_secret_names)),
{
    let ghost first = path_views(indexed@);
    let ghost second = path_views(ignored@);
    let mut out: Vec<FilePath> = Vec::new();
    let mut rest = indexed;
    assert(path_views(out@) =~= Seq::empty());
    while rest.len() > 0
        invariant
            strictly_sorted(path_views(out@)),
            forall|p: Seq<Seq<char>>|
                first.contains(p) <==> path_views(rest@).contains(p) || path_views(out@).contains(
                    p,
                ),
        decreases rest.len(),
    {
        let ghost held = path_views(rest@);
        let ghost sofar = path_views(out@);
        let x = rest.pop().unwrap();
        insert_unique(&mut out, x);
        proof {
            let left = path_views(rest@);
            assert(left =~= held.drop_last());
            assert forall|p: Seq<Seq<char>>|
                first.contains(p) <==> left.contains(p) || path_views(out@).contains(p) by {
                if held.contains(p) {
                    let k = choose|k: int| 0 <= k < held.len() && held[k] == p;
                    if k < left.len() {
                        assert(left[k] == p);
                    }
                }
                if left.contains(p) {
                    let k = choose|k: int| 0 <= k < left.len() && left[k] == p;
                    assert(held[k] == p);
                }
                assert(held[held.len() - 1] == x@);
            }
        }
    }
    let mut rest = ignored;
    while rest.len() > 0
        invariant
            strictly_sorted(path_views(out@)),
            forall|p: Seq<Seq<char>>|
                first.contains(p) || (second.contains(p) && takes_ignored(
                    p,
                    include_ignored,
                    include_secret_names,
                )) <==> (path_views(rest@).contains(p) && takes_ignored(
                    p,
                    include_ignored,
                    include_secret_names,
                )) || path_views(out@).contains(p),
        decreases rest.len(),
    {
        let ghost held = path_views(rest@);
        let ghost sofar = path_views(out@);
        let x = rest.pop().unwrap();
        let take = include_ignored || (include_secret_names && is_secret_path(&x));
        if take {
            insert_unique(&mut out, x);
        }
        proof {
            let left = path_views(rest@);
            assert(left =~= held.drop_last());
            assert forall|p: Seq<Seq<char>>|
                held.contains(p) <==> left.contains(p) || p == x@ by {
                if held.contains(p) {
                    let k = choose|k: int| 0 <= k < held.len() && held[k] == p;
                    if k < left.len() {
                        assert(left[k] == p);
                    }
                }
                if left.contains(p) {
                    let k = choose|k: int| 0 <= k < left.len() && left[k] == p;
                    assert(held[k] == p);
                }
                assert(held[held.len() - 1] == x@);
            }
        }
    }
    out
}

} // verus!
