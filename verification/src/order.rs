//! The order in which the entries of a directory are read: by name,
//! character by character.

use vstd::prelude::*;
use vstd::relations::{sorted_by, total_ordering};
use vstd::seq_lib::lemma_sorted_unique;
use crate::text::characters;

verus! {

/// Whether the name `a` comes no later than the name `b`: at the first
/// character in which they differ `a` has the lower one, or `a` ends where
/// they have not differed.
pub open spec fn name_le(a: Seq<char>, b: Seq<char>) -> bool
    decreases a.len(),
{
    if a.len() == 0 {
        true
    } else if b.len() == 0 {
        false
    } else if a[0] < b[0] {
        true
    } else if a[0] > b[0] {
        false
    } else {
        name_le(a.drop_first(), b.drop_first())
    }
}

/// The order of names.
pub open spec fn by_name() -> spec_fn(Seq<char>, Seq<char>) -> bool {
    |a: Seq<char>, b: Seq<char>| name_le(a, b)
}

proof fn lemma_reflexive(a: Seq<char>)
    ensures
        name_le(a, a),
    decreases a.len(),
{
    if a.len() > 0 {
        lemma_reflexive(a.drop_first());
    }
}

proof fn lemma_antisymmetric(a: Seq<char>, b: Seq<char>)
    requires
        name_le(a, b),
        name_le(b, a),
    ensures
        a == b,
    decreases a.len(),
{
    if a.len() > 0 {
        lemma_antisymmetric(a.drop_first(), b.drop_first());
        assert(a[0] == b[0]);
        assert(a =~= seq![a[0]] + a.drop_first());
        assert(b =~= seq![b[0]] + b.drop_first());
    } else {
        assert(a =~= b);
    }
}

proof fn lemma_transitive(a: Seq<char>, b: Seq<char>, c: Seq<char>)
    requires
        name_le(a, b),
        name_le(b, c),
    ensures
        name_le(a, c),
    decreases a.len(),
{
    if a.len() > 0 && a[0] == b[0] && b[0] == c[0] {
        lemma_transitive(a.drop_first(), b.drop_first(), c.drop_first());
    }
}

proof fn lemma_connected(a: Seq<char>, b: Seq<char>)
    ensures
        name_le(a, b) || name_le(b, a),
    decreases a.len(),
{
    if a.len() > 0 && b.len() > 0 {
        lemma_connected(a.drop_first(), b.drop_first());
    }
}

/// The order of names is a total order.
pub proof fn lemma_name_order()
    ensures
        total_ordering(by_name()),
{
    let order = by_name();
    assert forall|x: Seq<char>| #[trigger] order(x, x) by {
        lemma_reflexive(x);
    }
    assert forall|x: Seq<char>, y: Seq<char>| #[trigger] order(x, y) && #[trigger] order(y, x) implies x
        == y by {
        lemma_antisymmetric(x, y);
    }
    assert forall|x: Seq<char>, y: Seq<char>, z: Seq<char>| #[trigger]
        order(x, y) && #[trigger] order(y, z) implies order(x, z) by {
        lemma_transitive(x, y, z);
    }
    assert forall|x: Seq<char>, y: Seq<char>| #[trigger] order(x, y) || #[trigger] order(y, x) by {
        lemma_connected(x, y);
    }
}

/// Determinism of the order of siblings. However the entries of a
/// directory are listed, they are read in one order: two listings of the
/// same names, each as often in one as in the other, are sorted alike.
pub proof fn lemma_order_determined(first: Seq<Seq<char>>, second: Seq<Seq<char>>)
    requires
        first.to_multiset() == second.to_multiset(),
    ensures
        first.sort_by(by_name()) == second.sort_by(by_name()),
{
    lemma_name_order();
    first.lemma_sort_by_ensures(by_name());
    second.lemma_sort_by_ensures(by_name());
    lemma_sorted_unique(first.sort_by(by_name()), second.sort_by(by_name()), by_name());
}

/// Whether the name `a` comes no later than the name `b`.
pub fn name_comes_first(a: &str, b: &str) -> (first: bool)
    ensures
        first == name_le(a@, b@),
{
    let x = characters(a);
    let y = characters(b);
    let mut i: usize = 0;
    assert(x@.skip(0) =~= x@ && y@.skip(0) =~= y@);
    loop
        invariant
            i <= x@.len(),
            i <= y@.len(),
            x@ == a@,
            y@ == b@,
            name_le(a@, b@) == name_le(x@.skip(i as int), y@.skip(i as int)),
        decreases x@.len() - i,
    {
        if i == x.len() {
            return true;
        }
        if i == y.len() {
            return false;
        }
        proof {
            assert(x@.skip(i as int)[0] == x@[i as int]);
            assert(y@.skip(i as int)[0] == y@[i as int]);
            assert(x@.skip(i as int).drop_first() =~= x@.skip(i + 1));
            assert(y@.skip(i as int).drop_first() =~= y@.skip(i + 1));
        }
        let p = x[i];
        let q = y[i];
        if p < q {
            return true;
        }
        if p > q {
            return false;
        }
        i += 1;
    }
}

/// The names in the order of names.
pub fn sort_names(names: Vec<String>) -> (sorted: Vec<String>)
    ensures
        sorted.deep_view() == names.deep_view().sort_by(by_name()),
{
    let ghost given = names.deep_view();
    let mut sorted: Vec<String> = Vec::new();
    let mut i: usize = 0;
    proof {
        lemma_name_order();
        assert(given.take(0) =~= Seq::<Seq<char>>::empty());
        assert(sorted.deep_view() =~= Seq::<Seq<char>>::empty());
    }
    while i < names.len()
        invariant
            given == names.deep_view(),
            given.len() == names@.len(),
            total_ordering(by_name()),
            i <= names@.len(),
            sorted@.len() == i,
            sorted_by(sorted.deep_view(), by_name()),
            sorted.deep_view().to_multiset() == given.take(i as int).to_multiset(),
        decreases names@.len() - i,
    {
        let ghost before = sorted.deep_view();
        let name = names[i].clone();
        assert(name@ == given[i as int]);
        let mut at: usize = sorted.len();
        while at > 0 && !name_comes_first(sorted[at - 1].as_str(), name.as_str())
            invariant
                at <= sorted@.len(),
                before == sorted.deep_view(),
                before.len() == sorted@.len(),
                forall|k: int| at <= k < before.len() ==> !name_le(#[trigger] before[k], name@),
            decreases at,
        {
            assert(before[at - 1] == sorted@[at - 1]@);
            at -= 1;
        }
        proof {
            if at > 0 {
                assert(before[at - 1] == sorted@[at - 1]@);
            }
        }
        sorted.insert(at, name);
        proof {
            let after = sorted.deep_view();
            let order = by_name();
            assert(after =~= before.insert(at as int, name@));
            vstd::seq_lib::to_multiset_insert(before, at as int, name@);
            assert(given.take(i + 1) =~= given.take(i as int).push(name@));
            vstd::seq_lib::to_multiset_build(given.take(i as int), name@);
            assert forall|a: int, b: int| 0 <= a < b < after.len() implies #[trigger] order(
                after[a],
                after[b],
            ) by {
                let a0 = if a < at { a } else { a - 1 };
                let b0 = if b < at { b } else { b - 1 };
                if a == at {
                    assert(after[b] == before[b0]);
                    lemma_connected(before[b0], name@);
                } else if b == at {
                    assert(after[a] == before[a0]);
                    assert(order(before[at - 1], name@));
                    if a0 < at - 1 {
                        assert(order(before[a0], before[at - 1]));
                        lemma_transitive(before[a0], before[at - 1], name@);
                    }
                } else {
                    assert(after[a] == before[a0] && after[b] == before[b0]);
                    assert(order(before[a0], before[b0]));
                }
            }
        }
        i += 1;
    }
    proof {
        assert(given.take(given.len() as int) =~= given);
        given.lemma_sort_by_ensures(by_name());
        lemma_sorted_unique(sorted.deep_view(), given.sort_by(by_name()), by_name());
    }
    sorted
}

} // verus!
