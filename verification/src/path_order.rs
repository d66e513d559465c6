//! The order of paths: component by component, each by the order of names.

use vstd::prelude::*;
use vstd::relations::total_ordering;
use vstd::string::*;
use crate::order::{
    compare_names, lemma_name_lt_irreflexive, lemma_name_lt_transitive, lemma_name_total,
    name_lt, Order,
};
use crate::path::FilePath;

verus! {

/// `a` and `b` hold the same components before place `k`.
pub open spec fn same_before(a: Seq<Seq<char>>, b: Seq<Seq<char>>, k: int) -> bool {
    &&& 0 <= k <= a.len()
    &&& k <= b.len()
    &&& forall|j: int| 0 <= j < k ==> a[j] == b[j]
}

/// `a` comes before `b`, decided at place `k`: the two agree before it, and
/// there `a` ends while `b` goes on, or `a` holds the lesser name.
pub open spec fn path_lt_at(a: Seq<Seq<char>>, b: Seq<Seq<char>>, k: int) -> bool {
    &&& same_before(a, b, k)
    &&& (k == a.len() && k < b.len()) || (k < a.len() && k < b.len() && name_lt(a[k], b[k]))
}

/// The path `a` comes strictly before the path `b`.
pub open spec fn path_lt(a: Seq<Seq<char>>, b: Seq<Seq<char>>) -> bool {
    exists|k: int| path_lt_at(a, b, k)
}

/// The path `a` comes before the path `b`, or is `b`.
pub open spec fn path_le(a: Seq<Seq<char>>, b: Seq<Seq<char>>) -> bool {
    a == b || path_lt(a, b)
}

/// The order of paths, as a relation.
pub open spec fn path_order() -> spec_fn(Seq<Seq<char>>, Seq<Seq<char>>) -> bool {
    |a: Seq<Seq<char>>, b: Seq<Seq<char>>| path_le(a, b)
}

/// What comparing the path `a` with the path `b` gives.
pub open spec fn path_order_of(a: Seq<Seq<char>>, b: Seq<Seq<char>>) -> Order {
    if a == b {
        Order::Equal
    } else if path_lt(a, b) {
        Order::Less
    } else {
        Order::Greater
    }
}

/// No path comes before itself.
pub proof fn lemma_path_lt_irreflexive(a: Seq<Seq<char>>)
    ensures
        !path_lt(a, a),
{
    if path_lt(a, a) {
        let k = choose|k: int| path_lt_at(a, a, k);
        lemma_name_lt_irreflexive(a[k]);
    }
}

/// The order of paths is transitive.
pub proof fn lemma_path_lt_transitive(a: Seq<Seq<char>>, b: Seq<Seq<char>>, c: Seq<Seq<char>>)
    requires
        path_lt(a, b),
        path_lt(b, c),
    ensures
        path_lt(a, c),
{
    let k1 = choose|k: int| path_lt_at(a, b, k);
    let k2 = choose|k: int| path_lt_at(b, c, k);
    let k = if k1 <= k2 { k1 } else { k2 };
    if k1 == k2 && k < a.len() && k < c.len() {
        lemma_name_lt_transitive(a[k], b[k], c[k]);
    }
    assert(path_lt_at(a, c, k));
}

proof fn lemma_path_total_from(a: Seq<Seq<char>>, b: Seq<Seq<char>>, k: int)
    requires
        same_before(a, b, k),
    ensures
        a == b || path_lt(a, b) || path_lt(b, a),
    decreases a.len() - k,
{
    if k == a.len() {
        if k == b.len() {
            assert(a =~= b);
        } else {
            assert(path_lt_at(a, b, k));
        }
    } else if k == b.len() {
        assert(path_lt_at(b, a, k));
    } else {
        lemma_name_total(a[k], b[k]);
        if name_lt(a[k], b[k]) {
            assert(path_lt_at(a, b, k));
        } else if name_lt(b[k], a[k]) {
            assert(path_lt_at(b, a, k));
        } else {
            lemma_path_total_from(a, b, k + 1);
        }
    }
}

/// Of two different paths one comes before the other.
pub proof fn lemma_path_total(a: Seq<Seq<char>>, b: Seq<Seq<char>>)
    ensures
        a == b || path_lt(a, b) || path_lt(b, a),
{
    lemma_path_total_from(a, b, 0);
}

/// Two paths are never each before the other.
pub proof fn lemma_path_lt_asymmetric(a: Seq<Seq<char>>, b: Seq<Seq<char>>)
    requires
        path_lt(a, b),
    ensures
        !path_lt(b, a),
{
    if path_lt(b, a) {
        lemma_path_lt_transitive(a, b, a);
        lemma_path_lt_irreflexive(a);
    }
}

/// The order of paths is total.
pub proof fn lemma_path_order_total()
    ensures
        total_ordering(path_order()),
{
    let r = path_order();
    assert forall|a: Seq<Seq<char>>, b: Seq<Seq<char>>| #[trigger] r(a, b) && r(b, a) implies a
        == b by {
        if a != b {
            lemma_path_lt_asymmetric(a, b);
        }
    }
    assert forall|a: Seq<Seq<char>>, b: Seq<Seq<char>>, c: Seq<Seq<char>>| #[trigger]
        r(a, b) && #[trigger] r(b, c) implies r(a, c) by {
        if a != b && b != c {
            lemma_path_lt_transitive(a, b, c);
        }
    }
    assert forall|a: Seq<Seq<char>>, b: Seq<Seq<char>>| #[trigger] r(a, b) || #[trigger] r(b, a) by {
        lemma_path_total(a, b);
    }
}

/// Compares two paths.
pub fn compare_paths(a: &FilePath, b: &FilePath) -> (r: Order)
    ensures
        r == path_order_of(a@, b@),
{
    let n: usize = a.components.len();
    let m: usize = b.components.len();
    let mut i: usize = 0;
    let mut r = Order::Equal;
    let mut decided = false;
    while i < n && i < m && !decided
        invariant
            n == a@.len(),
            m == b@.len(),
            same_before(a@, b@, i as int),
            !decided ==> r is Equal,
            decided ==> (r is Less && path_lt(a@, b@)) || (r is Greater && path_lt(b@, a@)),
        decreases n - i + if decided { 0int } else { 1int },
    {
        match compare_names(a.components[i].as_str(), b.components[i].as_str()) {
            Order::Less => {
                assert(path_lt_at(a@, b@, i as int));
                r = Order::Less;
                decided = true;
            },
            Order::Greater => {
                proof {
                    lemma_name_total(a@[i as int], b@[i as int]);
                }
                assert(path_lt_at(b@, a@, i as int));
                r = Order::Greater;
                decided = true;
            },
            Order::Equal => {
                i = i + 1;
            },
        }
    }
    if !decided {
        if n < m {
            assert(path_lt_at(a@, b@, i as int));
            r = Order::Less;
        } else if m < n {
            assert(path_lt_at(b@, a@, i as int));
            r = Order::Greater;
        } else {
            assert(a@ =~= b@);
        }
    }
    proof {
        lemma_path_lt_irreflexive(a@);
        if r is Greater {
            lemma_path_lt_asymmetric(b@, a@);
        }
    }
    r
}

} // verus!
