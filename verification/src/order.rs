//! The lexicographic order on names, and sorting by it.

use vstd::prelude::*;
use vstd::relations::{sorted_by, total_ordering};
use vstd::seq_lib::{lemma_sorted_unique, to_multiset_insert, to_multiset_remove};

verus! {

/// Whether `a` comes before `b`, or equals it, in lexicographic order: at the first place
/// where the two differ `a` holds the smaller byte, or `a` ends before they differ.
pub open spec fn lex_le(a: Seq<u8>, b: Seq<u8>) -> bool
    decreases a.len(),
{
    if a.len() == 0 {
        true
    } else if b.len() == 0 {
        false
    } else if a[0] != b[0] {
        a[0] < b[0]
    } else {
        lex_le(a.drop_first(), b.drop_first())
    }
}

/// The lexicographic order as a relation.
pub open spec fn name_order() -> spec_fn(Seq<u8>, Seq<u8>) -> bool {
    |a: Seq<u8>, b: Seq<u8>| lex_le(a, b)
}

/// The byte strings that a vector of byte vectors holds.
pub open spec fn names_of(v: Seq<Vec<u8>>) -> Seq<Seq<u8>> {
    v.map_values(|x: Vec<u8>| x@)
}

/// Every name is in order with itself.
pub proof fn lemma_lex_le_reflexive(a: Seq<u8>)
    ensures
        lex_le(a, a),
    decreases a.len(),
{
    if a.len() > 0 {
        lemma_lex_le_reflexive(a.drop_first());
    }
}

/// Two names that are in order both ways are the same name.
pub proof fn lemma_lex_le_antisymmetric(a: Seq<u8>, b: Seq<u8>)
    requires
        lex_le(a, b),
        lex_le(b, a),
    ensures
        a == b,
    decreases a.len(),
{
    if a.len() == 0 || b.len() == 0 {
        assert(a =~= b);
    } else {
        lemma_lex_le_antisymmetric(a.drop_first(), b.drop_first());
        assert(a =~= seq![a[0]] + a.drop_first());
        assert(b =~= seq![b[0]] + b.drop_first());
    }
}

/// The order passes along a chain of three names.
pub proof fn lemma_lex_le_transitive(a: Seq<u8>, b: Seq<u8>, c: Seq<u8>)
    requires
        lex_le(a, b),
        lex_le(b, c),
    ensures
        lex_le(a, c),
    decreases a.len(),
{
    if a.len() > 0 && b.len() > 0 && c.len() > 0 && a[0] == b[0] && b[0] == c[0] {
        lemma_lex_le_transitive(a.drop_first(), b.drop_first(), c.drop_first());
    }
}

/// Any two names are in order one way or the other.
pub proof fn lemma_lex_le_connected(a: Seq<u8>, b: Seq<u8>)
    ensures
        lex_le(a, b) || lex_le(b, a),
    decreases a.len(),
{
    if a.len() > 0 && b.len() > 0 && a[0] == b[0] {
        lemma_lex_le_connected(a.drop_first(), b.drop_first());
    }
}

/// The lexicographic order is a total order.
pub proof fn lemma_name_order_total()
    ensures
        total_ordering(name_order()),
{
    let r = name_order();
    assert forall|x: Seq<u8>| #[trigger] r(x, x) by {
        lemma_lex_le_reflexive(x);
    }
    assert forall|x: Seq<u8>, y: Seq<u8>| #[trigger] r(x, y) && #[trigger] r(y, x) implies x == y by {
        lemma_lex_le_antisymmetric(x, y);
    }
    assert forall|x: Seq<u8>, y: Seq<u8>, z: Seq<u8>| #[trigger] r(x, y) && #[trigger] r(y, z) implies r(
        x,
        z,
    ) by {
        lemma_lex_le_transitive(x, y, z);
    }
    assert forall|x: Seq<u8>, y: Seq<u8>| #[trigger] r(x, y) || #[trigger] r(y, x) by {
        lemma_lex_le_connected(x, y);
    }
}

/// Two names that agree on their first `i` bytes are ordered as their remainders are.
proof fn lemma_lex_le_skip(a: Seq<u8>, b: Seq<u8>, i: int)
    requires
        0 <= i <= a.len(),
        i <= b.len(),
        a.subrange(0, i) == b.subrange(0, i),
    ensures
        lex_le(a, b) == lex_le(a.skip(i), b.skip(i)),
    decreases i,
{
    if i == 0 {
        assert(a.skip(0) =~= a);
        assert(b.skip(0) =~= b);
    } else {
        assert(a.subrange(0, i - 1) =~= a.subrange(0, i).subrange(0, i - 1));
        assert(b.subrange(0, i - 1) =~= b.subrange(0, i).subrange(0, i - 1));
        lemma_lex_le_skip(a, b, i - 1);
        let x = a.skip(i - 1);
        let y = b.skip(i - 1);
        assert(x[0] == a.subrange(0, i)[i - 1]);
        assert(y[0] == b.subrange(0, i)[i - 1]);
        assert(x.drop_first() =~= a.skip(i));
        assert(y.drop_first() =~= b.skip(i));
    }
}

/// Whether `a` comes before `b`, or equals it, in lexicographic order.
pub fn name_le(a: &[u8], b: &[u8]) -> (r: bool)
    ensures
        r == lex_le(a@, b@),
{
    let mut i: usize = 0;
    while i < a.len() && i < b.len()
        invariant
            i <= a.len(),
            i <= b.len(),
            a@.subrange(0, i as int) == b@.subrange(0, i as int),
        decreases a.len() - i,
    {
        if a[i] != b[i] {
            proof {
                lemma_lex_le_skip(a@, b@, i as int);
            }
            return a[i] < b[i];
        }
        proof {
            assert(a@.subrange(0, i + 1) =~= a@.subrange(0, i as int).push(a@[i as int]));
            assert(b@.subrange(0, i + 1) =~= b@.subrange(0, i as int).push(b@[i as int]));
        }
        i += 1;
    }
    proof {
        lemma_lex_le_skip(a@, b@, i as int);
    }
    i == a.len()
}

/// Sorts names into ascending lexicographic order.
pub fn sort_names(names: Vec<Vec<u8>>) -> (sorted: Vec<Vec<u8>>)
    ensures
        names_of(sorted@) == names_of(names@).sort_by(name_order()),
{
    let mut rest = names;
    let mut sorted: Vec<Vec<u8>> = Vec::new();
    proof {
        lemma_name_order_total();
        assert(names_of(sorted@).to_multiset().add(names_of(rest@).to_multiset()) =~= names_of(
            names@,
        ).to_multiset()) by {
            broadcast use vstd::seq_lib::group_to_multiset_ensures;

            assert(names_of(sorted@) =~= Seq::<Seq<u8>>::empty());
        }
    }
    while rest.len() > 0
        invariant
            total_ordering(name_order()),
            sorted_by(names_of(sorted@), name_order()),
            names_of(sorted@).to_multiset().add(names_of(rest@).to_multiset()) =~= names_of(
                names@,
            ).to_multiset(),
        decreases rest.len(),
    {
        let ghost before_rest = names_of(rest@);
        let ghost before = names_of(sorted@);
        let last: usize = rest.len() - 1;
        let name = rest.remove(last);
        let mut at: usize = 0;
        while at < sorted.len() && name_le(sorted[at].as_slice(), name.as_slice())
            invariant
                at <= sorted.len(),
                before == names_of(sorted@),
                forall|k: int| 0 <= k < at ==> lex_le(#[trigger] before[k], name@),
            decreases sorted.len() - at,
        {
            at += 1;
        }
        sorted.insert(at, name);
        proof {
            let after = names_of(sorted@);
            assert(after =~= before.insert(at as int, name@));
            assert(names_of(rest@) =~= before_rest.remove(last as int));
            to_multiset_insert(before, at as int, name@);
            to_multiset_remove(before_rest, last as int);
            assert(before_rest[last as int] == name@);
            assert(after.to_multiset().add(names_of(rest@).to_multiset()) =~= before.to_multiset().add(
                before_rest.to_multiset(),
            )) by {
                broadcast use vstd::multiset::group_multiset_axioms;
                broadcast use vstd::seq_lib::group_to_multiset_ensures;

                assert(before_rest.contains(name@));
                assert(before_rest.to_multiset().count(name@) > 0);
            }
            assert forall|i: int, j: int| 0 <= i < j < after.len() implies #[trigger] name_order()(
                after[i],
                after[j],
            ) by {
                if j < at {
                    assert(name_order()(before[i], before[j]));
                } else if j == at {
                    assert(lex_le(before[i], name@));
                } else if i == at {
                    // the first name after the gap is the one that stopped the search
                    assert(!lex_le(before[at as int], name@));
                    lemma_lex_le_connected(before[at as int], name@);
                    if j - 1 > at {
                        assert(name_order()(before[at as int], before[j - 1]));
                        lemma_lex_le_transitive(name@, before[at as int], before[j - 1]);
                    }
                } else if i < at {
                    assert(name_order()(before[i], before[j - 1]));
                } else {
                    assert(name_order()(before[i - 1], before[j - 1]));
                }
            }
        }
    }
    proof {
        let all = names_of(names@);
        assert(names_of(rest@) =~= Seq::<Seq<u8>>::empty());
        assert(names_of(sorted@).to_multiset() =~= all.to_multiset()) by {
            broadcast use vstd::seq_lib::group_to_multiset_ensures;

        }
        all.lemma_sort_by_ensures(name_order());
        lemma_sorted_unique(names_of(sorted@), all.sort_by(name_order()), name_order());
    }
    sorted
}

} // verus!
