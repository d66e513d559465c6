//! The order in which files are listed, and the sort that establishes it.

use vstd::prelude::*;
use vstd::relations::{sorted_by, total_ordering};
use vstd::seq_lib::lemma_sorted_unique;
use vstd::string::*;
use crate::order::{
    compare_names, lemma_name_lt_asymmetric, lemma_name_lt_irreflexive, lemma_name_lt_transitive,
    lemma_name_total, name_le, name_lt, Order,
};
use crate::trusted::{lowercase, to_lower};

verus! {

/// Whether a file with key `ka` and name `a` is listed no later than one
/// with key `kb` and name `b`: by the keys, and between equal keys by the
/// names themselves.
pub open spec fn keyed_le(ka: Seq<char>, a: Seq<char>, kb: Seq<char>, b: Seq<char>) -> bool {
    name_lt(ka, kb) || (ka == kb && name_le(a, b))
}

/// Whether the file `a` is listed no later than the file `b`: files are
/// ordered without regard to case, by their lowercased names, and files that
/// differ in case alone by their names as written.
pub open spec fn file_le(a: Seq<char>, b: Seq<char>) -> bool {
    keyed_le(lowercase(a), a, lowercase(b), b)
}

/// The order of files, as a relation.
pub open spec fn file_order() -> spec_fn(Seq<char>, Seq<char>) -> bool {
    |a: Seq<char>, b: Seq<char>| file_le(a, b)
}

/// The names that a row of strings holds.
pub open spec fn names_of(s: Seq<String>) -> Seq<Seq<char>> {
    s.map_values(|x: String| x@)
}

/// The files of a directory in the order in which they are listed.
pub open spec fn sorted_files(files: Seq<Seq<char>>) -> Seq<Seq<char>> {
    files.sort_by(file_order())
}

/// The order of files is total: any two files are comparable, and only a
/// file itself is both before and after it.
pub proof fn lemma_file_order_total()
    ensures
        total_ordering(file_order()),
{
    let r = file_order();
    assert forall|a: Seq<char>, b: Seq<char>| #[trigger] r(a, b) && r(b, a) implies a == b by {
        let ka = lowercase(a);
        let kb = lowercase(b);
        if name_lt(ka, kb) {
            lemma_name_lt_asymmetric(ka, kb);
            lemma_name_lt_irreflexive(ka);
        } else if name_lt(kb, ka) {
            lemma_name_lt_irreflexive(ka);
        } else if a != b {
            if name_lt(a, b) {
                lemma_name_lt_asymmetric(a, b);
            }
        }
    }
    assert forall|a: Seq<char>, b: Seq<char>, c: Seq<char>| #[trigger]
        r(a, b) && #[trigger] r(b, c) implies r(a, c) by {
        let ka = lowercase(a);
        let kb = lowercase(b);
        let kc = lowercase(c);
        if name_lt(ka, kb) && name_lt(kb, kc) {
            lemma_name_lt_transitive(ka, kb, kc);
        } else if ka == kb && kb == kc {
            if name_lt(a, b) && name_lt(b, c) {
                lemma_name_lt_transitive(a, b, c);
            }
        }
    }
    assert forall|a: Seq<char>, b: Seq<char>| #[trigger] r(a, b) || #[trigger] r(b, a) by {
        lemma_name_total(lowercase(a), lowercase(b));
        lemma_name_total(a, b);
    }
}

/// Sorted rows of the same files are the same row.
pub proof fn lemma_sorted_files_unique(x: Seq<Seq<char>>, files: Seq<Seq<char>>)
    requires
        sorted_by(x, file_order()),
        x.to_multiset() == files.to_multiset(),
    ensures
        x == sorted_files(files),
{
    lemma_file_order_total();
    files.lemma_sort_by_ensures(file_order());
    lemma_sorted_unique(x, sorted_files(files), file_order());
}

/// Decides whether a file is listed no later than another, from their names
/// and their lowercased names.
pub fn keyed_before(ka: &str, a: &str, kb: &str, b: &str) -> (r: bool)
    ensures
        r == keyed_le(ka@, a@, kb@, b@),
{
    match compare_names(ka, kb) {
        Order::Less => true,
        Order::Greater => false,
        Order::Equal => match compare_names(a, b) {
            Order::Greater => false,
            _ => true,
        },
    }
}

/// Whether a file is listed no later than another.
pub fn file_before(a: &str, b: &str) -> (r: bool)
    ensures
        r == file_le(a@, b@),
{
    let ka = to_lower(a);
    let kb = to_lower(b);
    keyed_before(ka.as_str(), a, kb.as_str(), b)
}

/// Sorts file names into the order in which they are listed.
pub fn sort_files(files: &mut Vec<String>)
    ensures
        names_of(final(files)@) == sorted_files(names_of(old(files)@)),
{
    let ghost input = names_of(files@);
    let mut out: Vec<String> = Vec::new();
    let mut i: usize = 0;
    proof {
        assert(names_of(out@) =~= input.take(0));
    }
    while i < files.len()
        invariant
            i <= files.len(),
            input == names_of(files@),
            sorted_by(names_of(out@), file_order()),
            names_of(out@).to_multiset() == input.take(i as int).to_multiset(),
        decreases files.len() - i,
    {
        let x: String = files[i].clone();
        let ghost before = names_of(out@);
        let mut pos: usize = 0;
        while pos < out.len() && file_before(out[pos].as_str(), x.as_str())
            invariant
                pos <= out.len(),
                before == names_of(out@),
                forall|j: int| 0 <= j < pos ==> file_le(#[trigger] before[j], x@),
            decreases out.len() - pos,
        {
            pos = pos + 1;
        }
        out.insert(pos, x);
        proof {
            let after = names_of(out@);
            let r = file_order();
            lemma_file_order_total();
            assert(after =~= before.insert(pos as int, x@));
            assert(input.take(i + 1) =~= input.take(i as int).push(x@));
            broadcast use vstd::seq_lib::group_to_multiset_ensures;
            assert forall|a: int, b: int| 0 <= a < b < after.len() implies r(
                after[a],
                after[b],
            ) by {
                if b < pos {
                    assert(r(before[a], before[b]));
                } else if b == pos {
                    assert(file_le(before[a], x@));
                } else if a > pos {
                    assert(r(before[a - 1], before[b - 1]));
                } else if a == pos {
                    // `x` comes before what stood at `pos`, and so before all after it
                    assert(!file_le(before[pos as int], x@));
                    assert(r(before[pos as int], x@) || r(x@, before[pos as int]));
                    if b - 1 > pos {
                        assert(r(before[pos as int], before[b - 1]));
                        assert(r(x@, before[pos as int]) && r(before[pos as int], before[b - 1]));
                    }
                } else {
                    assert(r(before[a], before[b - 1]));
                }
            }
        }
        i = i + 1;
    }
    proof {
        assert(input.take(i as int) =~= input);
        lemma_sorted_files_unique(names_of(out@), input);
    }
    *files = out;
}

} // verus!
